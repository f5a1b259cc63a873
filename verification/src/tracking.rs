//! The context ledger: a per-symbol observation-depth state machine.
//!
//! Each symbol id maps to the deepest observation recorded for it. Depth only
//! ever rises — except for the distinguished `Stale` marker, which always
//! applies. `Stale` sits above `FullBody` in the order, so a later plain read
//! does not clear staleness; only another explicit signal would.

use vstd::prelude::*;

pub mod agents;

use crate::text::{bytes_eq, str_eq};

verus! {

/// How deeply a symbol has been observed, from nothing to its full body,
/// plus the `Stale` marker set when recorded content went out of date.
#[derive(Debug, Clone, Copy, PartialEq, Eq, Hash, Structural)]
pub enum ReadDepth {
    Unseen,
    NameOnly,
    Overview,
    Signature,
    FullBody,
    Stale,
}

impl ReadDepth {
    /// Position in the total order
    /// `Unseen < NameOnly < Overview < Signature < FullBody < Stale`.
    pub open spec fn spec_rank(self) -> nat {
        match self {
            ReadDepth::Unseen => 0,
            ReadDepth::NameOnly => 1,
            ReadDepth::Overview => 2,
            ReadDepth::Signature => 3,
            ReadDepth::FullBody => 4,
            ReadDepth::Stale => 5,
        }
    }

    /// Whether this depth means the symbol has been seen at all.
    pub open spec fn spec_is_seen(self) -> bool {
        self != ReadDepth::Unseen
    }

    pub(crate) fn rank(self) -> (r: u8)
        ensures
            r as nat == self.spec_rank(),
    {
        match self {
            ReadDepth::Unseen => 0,
            ReadDepth::NameOnly => 1,
            ReadDepth::Overview => 2,
            ReadDepth::Signature => 3,
            ReadDepth::FullBody => 4,
            ReadDepth::Stale => 5,
        }
    }

    /// Whether this depth indicates the symbol has been seen at all.
    pub fn is_seen(&self) -> (r: bool)
        ensures
            r == self.spec_is_seen(),
    {
        !matches!(self, ReadDepth::Unseen)
    }
}

/// The observable content of one ledger entry: everything but the timestamp,
/// which comes from the wall clock and is promised nothing.
pub ghost struct EntryModel {
    pub depth: ReadDepth,
    pub hash: Seq<u8>,
    pub agent: Seq<char>,
    pub tokens: nat,
}

/// One symbol's observation record.
#[derive(Debug, Clone)]
pub struct ContextEntry {
    pub symbol_id: String,
    pub depth: ReadDepth,
    /// The content hash observed when the depth was last raised.
    pub content_hash_at_read: Vec<u8>,
    /// Milliseconds since the Unix epoch when the depth was last raised.
    pub timestamp: u64,
    pub agent_id: String,
    pub token_count: usize,
}

impl View for ContextEntry {
    type V = EntryModel;

    open spec fn view(&self) -> EntryModel {
        EntryModel {
            depth: self.depth,
            hash: self.content_hash_at_read@,
            agent: self.agent_id@,
            tokens: self.token_count as nat,
        }
    }
}

/// The entry an id has before anything was recorded for it.
pub open spec fn spec_baseline_entry() -> EntryModel {
    EntryModel {
        depth: ReadDepth::Unseen,
        hash: Seq::new(32, |i: int| 0u8),
        agent: Seq::empty(),
        tokens: 0,
    }
}

/// The effect of one `record` call on the ledger: the entry is created at the
/// baseline if absent, then overwritten with the new observation iff the new
/// depth is `Stale` or strictly deeper than the current depth.
pub open spec fn spec_record(
    m: Map<Seq<char>, EntryModel>,
    id: Seq<char>,
    depth: ReadDepth,
    hash: Seq<u8>,
    agent: Seq<char>,
    tokens: nat,
) -> Map<Seq<char>, EntryModel> {
    let cur = if m.contains_key(id) {
        m[id]
    } else {
        spec_baseline_entry()
    };
    if depth == ReadDepth::Stale || depth.spec_rank() > cur.depth.spec_rank() {
        m.insert(id, EntryModel { depth, hash, agent, tokens })
    } else {
        m.insert(id, cur)
    }
}

/// The effect of `mark_stale_if_changed`: a no-op unless the id has an entry
/// whose depth is past `Unseen` and whose recorded hash differs from the
/// current one; then the depth is forced to `Stale` and all else is kept.
pub open spec fn spec_mark_stale(
    m: Map<Seq<char>, EntryModel>,
    id: Seq<char>,
    current_hash: Seq<u8>,
) -> Map<Seq<char>, EntryModel> {
    if m.contains_key(id) && m[id].depth != ReadDepth::Unseen && m[id].hash != current_hash {
        m.insert(
            id,
            EntryModel {
                depth: ReadDepth::Stale,
                hash: m[id].hash,
                agent: m[id].agent,
                tokens: m[id].tokens,
            },
        )
    } else {
        m
    }
}

/// The depth an id reads at: `Unseen` for unknown ids.
pub open spec fn spec_depth_of(m: Map<Seq<char>, EntryModel>, id: Seq<char>) -> ReadDepth {
    if m.contains_key(id) {
        m[id].depth
    } else {
        ReadDepth::Unseen
    }
}

/// Number of entries of `m` that satisfy `f`.
pub open spec fn spec_count_matching(
    m: Map<Seq<char>, EntryModel>,
    f: spec_fn(EntryModel) -> bool,
) -> nat {
    m.dom().filter(|k: Seq<char>| f(m[k])).len()
}

/// A mapping from symbol id to its observation record. Entries are created
/// lazily on first write and never deleted.
#[derive(Debug, Clone)]
pub struct ContextLedger {
    entries: Vec<ContextEntry>,
}

/// Relies on std's `SystemTime`: milliseconds since the Unix epoch, or 0 on a
/// clock that reads before the epoch. Nothing is promised of the value.
#[verifier::external_body]
fn now_millis() -> u64 {
    match std::time::SystemTime::now().duration_since(std::time::UNIX_EPOCH) {
        Ok(d) => d.as_millis() as u64,
        Err(_) => 0,
    }
}

/// The ledger contents as a map, later entries shadowing earlier ones (the
/// well-formed ledger has no duplicate ids, so nothing is ever shadowed).
pub open spec fn spec_entries_map(s: Seq<ContextEntry>) -> Map<Seq<char>, EntryModel>
    decreases s.len(),
{
    if s.len() == 0 {
        Map::empty()
    } else {
        spec_entries_map(s.drop_last()).insert(s.last().symbol_id@, s.last()@)
    }
}

proof fn lemma_entries_map_finite(s: Seq<ContextEntry>)
    ensures
        spec_entries_map(s).dom().finite(),
    decreases s.len(),
{
    if s.len() > 0 {
        lemma_entries_map_finite(s.drop_last());
    }
}

proof fn lemma_entries_map_absent(s: Seq<ContextEntry>, k: Seq<char>)
    requires
        forall|i: int| 0 <= i < s.len() ==> (#[trigger] s[i]).symbol_id@ != k,
    ensures
        !spec_entries_map(s).contains_key(k),
    decreases s.len(),
{
    if s.len() > 0 {
        assert(s.last() == s[s.len() - 1]);
        assert(forall|i: int|
            0 <= i < s.drop_last().len() ==> (#[trigger] s.drop_last()[i]).symbol_id@ != k);
        lemma_entries_map_absent(s.drop_last(), k);
    }
}

/// In a duplicate-free entry list, the map agrees with the list.
proof fn lemma_entries_map_index(s: Seq<ContextEntry>, i: int)
    requires
        forall|a: int, b: int|
            0 <= a < b < s.len() ==> (#[trigger] s[a]).symbol_id@ != (#[trigger] s[b]).symbol_id@,
        0 <= i < s.len(),
    ensures
        spec_entries_map(s).contains_key(s[i].symbol_id@),
        spec_entries_map(s)[s[i].symbol_id@] == s[i]@,
    decreases s.len(),
{
    let d = s.drop_last();
    if i == s.len() - 1 {
        assert(s.last() == s[i]);
    } else {
        assert(forall|a: int, b: int|
            0 <= a < b < d.len() ==> (#[trigger] d[a]).symbol_id@ != (#[trigger] d[b]).symbol_id@);
        lemma_entries_map_index(d, i);
        assert(d[i] == s[i]);
        assert(s[i].symbol_id@ != s[s.len() - 1].symbol_id@);
        assert(s.last() == s[s.len() - 1]);
    }
}

/// Updating entry `i` in place (keeping its id) updates the map at that id.
proof fn lemma_entries_map_update(s: Seq<ContextEntry>, i: int, e: ContextEntry)
    requires
        forall|a: int, b: int|
            0 <= a < b < s.len() ==> (#[trigger] s[a]).symbol_id@ != (#[trigger] s[b]).symbol_id@,
        0 <= i < s.len(),
        e.symbol_id@ == s[i].symbol_id@,
    ensures
        spec_entries_map(s.update(i, e)) =~= spec_entries_map(s).insert(e.symbol_id@, e@),
    decreases s.len(),
{
    let d = s.drop_last();
    let s2 = s.update(i, e);
    if i == s.len() - 1 {
        assert(s2.drop_last() =~= d);
        assert(s2.last() == e);
        assert(spec_entries_map(s2) == spec_entries_map(d).insert(e.symbol_id@, e@));
        assert(s.last() == s[i]);
        assert(spec_entries_map(s) == spec_entries_map(d).insert(s[i].symbol_id@, s[i]@));
        assert(spec_entries_map(d).insert(s[i].symbol_id@, s[i]@).insert(e.symbol_id@, e@)
            =~= spec_entries_map(d).insert(e.symbol_id@, e@));
    } else {
        assert(forall|a: int, b: int|
            0 <= a < b < d.len() ==> (#[trigger] d[a]).symbol_id@ != (#[trigger] d[b]).symbol_id@);
        lemma_entries_map_update(d, i, e);
        assert(s2.drop_last() =~= d.update(i, e));
        assert(s2.last() == s.last());
        assert(s.last() == s[s.len() - 1]);
        assert(e.symbol_id@ != s[s.len() - 1].symbol_id@);
        assert(spec_entries_map(s2) == spec_entries_map(d.update(i, e)).insert(
            s.last().symbol_id@,
            s.last()@,
        ));
        assert(spec_entries_map(d.update(i, e)) =~= spec_entries_map(d).insert(e.symbol_id@, e@));
        assert(spec_entries_map(d).insert(e.symbol_id@, e@).insert(s.last().symbol_id@, s.last()@)
            =~= spec_entries_map(d).insert(s.last().symbol_id@, s.last()@).insert(
            e.symbol_id@,
            e@,
        ));
    }
}

impl ContextLedger {
    /// The ledger as a map from symbol id to entry content.
    pub closed spec fn view(&self) -> Map<Seq<char>, EntryModel> {
        spec_entries_map(self.entries@)
    }

    /// No two entries share an id.
    pub closed spec fn wf(&self) -> bool {
        forall|a: int, b: int|
            0 <= a < b < self.entries@.len() ==> (#[trigger] self.entries@[a]).symbol_id@ != (
            #[trigger] self.entries@[b]).symbol_id@
    }

    /// An empty ledger.
    pub fn new() -> (r: Self)
        ensures
            r.wf(),
            r@ == Map::<Seq<char>, EntryModel>::empty(),
    {
        ContextLedger { entries: Vec::new() }
    }

    /// Index of the entry for `id`, if there is one.
    fn find_index(&self, id: &str) -> (r: Option<usize>)
        ensures
            match r {
                Some(i) => i < self.entries@.len() && self.entries@[i as int].symbol_id@ == id@,
                None => forall|j: int|
                    0 <= j < self.entries@.len() ==> (#[trigger] self.entries@[j]).symbol_id@
                        != id@,
            },
    {
        let mut i: usize = 0;
        while i < self.entries.len()
            invariant
                0 <= i <= self.entries@.len(),
                forall|j: int|
                    0 <= j < i ==> (#[trigger] self.entries@[j]).symbol_id@ != id@,
            decreases self.entries@.len() - i,
        {
            if str_eq(self.entries[i].symbol_id.as_str(), id) {
                return Some(i);
            }
            i = i + 1;
        }
        None
    }

    /// Record that a symbol was seen at the given depth. Depth only upgrades,
    /// never downgrades — except `Stale`, which always applies. The hash,
    /// agent, token count and timestamp refresh only when the depth changes.
    pub fn record(
        &mut self,
        symbol_id: String,
        depth: ReadDepth,
        content_hash: Vec<u8>,
        agent_id: String,
        token_count: usize,
    )
        requires
            old(self).wf(),
        ensures
            final(self).wf(),
            final(self)@ == spec_record(
                old(self)@,
                symbol_id@,
                depth,
                content_hash@,
                agent_id@,
                token_count as nat,
            ),
    {
        let idx = self.find_index(symbol_id.as_str());
        let i: usize = match idx {
            Some(i) => i,
            None => {
                let baseline = ContextEntry {
                    symbol_id: symbol_id.clone(),
                    depth: ReadDepth::Unseen,
                    content_hash_at_read: zero_hash(),
                    timestamp: now_millis(),
                    agent_id: String::new(),
                    token_count: 0,
                };
                proof {
                    lemma_entries_map_absent(self.entries@, symbol_id@);
                    assert(self.entries@.push(baseline).drop_last() =~= self.entries@);
                }
                self.entries.push(baseline);
                proof {
                    assert(forall|a: int, b: int|
                        0 <= a < b < self.entries@.len() ==> (
                        #[trigger] self.entries@[a]).symbol_id@ != (
                        #[trigger] self.entries@[b]).symbol_id@);
                }
                self.entries.len() - 1
            },
        };
        let ghost pre = self.entries@;
        let ghost m0 = spec_entries_map(pre);
        proof {
            lemma_entries_map_index(pre, i as int);
        }
        let mut e = self.entries.remove(i);
        let apply = matches!(depth, ReadDepth::Stale) || depth.rank() > e.depth.rank();
        if apply {
            e.depth = depth;
            e.content_hash_at_read = content_hash;
            e.timestamp = now_millis();
            e.agent_id = agent_id;
            e.token_count = token_count;
        }
        self.entries.insert(i, e);
        proof {
            assert(self.entries@ =~= pre.update(i as int, e));
            lemma_entries_map_update(pre, i as int, e);
            assert(final(self)@ =~= spec_record(
                old(self)@,
                symbol_id@,
                depth,
                content_hash@,
                agent_id@,
                token_count as nat,
            ));
        }
    }

    /// The read depth for a symbol, defaulting to `Unseen` for unknown ids.
    pub fn depth_of(&self, symbol_id: &str) -> (r: ReadDepth)
        requires
            self.wf(),
        ensures
            r == spec_depth_of(self@, symbol_id@),
    {
        match self.find_index(symbol_id) {
            Some(i) => {
                proof {
                    lemma_entries_map_index(self.entries@, i as int);
                }
                self.entries[i].depth
            },
            None => {
                proof {
                    lemma_entries_map_absent(self.entries@, symbol_id@);
                }
                ReadDepth::Unseen
            },
        }
    }

    /// Force the entry for `symbol_id` to `Stale` if it was observed and its
    /// recorded content hash no longer matches `current_hash`. A no-op for
    /// unknown or never-observed ids.
    pub fn mark_stale_if_changed(&mut self, symbol_id: &str, current_hash: &Vec<u8>)
        requires
            old(self).wf(),
        ensures
            final(self).wf(),
            final(self)@ == spec_mark_stale(old(self)@, symbol_id@, current_hash@),
    {
        let idx = self.find_index(symbol_id);
        match idx {
            Some(i) => {
                proof {
                    lemma_entries_map_index(self.entries@, i as int);
                }
                let ghost pre = self.entries@;
                let stale_needed = {
                    let e = &self.entries[i];
                    e.depth.is_seen() && !bytes_eq(&e.content_hash_at_read, current_hash)
                };
                if stale_needed {
                    let mut e = self.entries.remove(i);
                    e.depth = ReadDepth::Stale;
                    self.entries.insert(i, e);
                    proof {
                        assert(self.entries@ =~= pre.update(i as int, e));
                        lemma_entries_map_update(pre, i as int, e);
                        assert(final(self)@ =~= spec_mark_stale(
                            old(self)@,
                            symbol_id@,
                            current_hash@,
                        ));
                    }
                }
            },
            None => {
                proof {
                    lemma_entries_map_absent(self.entries@, symbol_id@);
                }
            },
        }
    }

    /// Number of entries whose depth is anything but `Unseen`.
    #[verifier::loop_isolation(false)]
    pub fn total_seen(&self) -> (r: usize)
        requires
            self.wf(),
        ensures
            r as nat == spec_count_matching(self@, |e: EntryModel| e.depth != ReadDepth::Unseen),
    {
        let f = Ghost(|e: EntryModel| e.depth != ReadDepth::Unseen);
        let mut count: usize = 0;
        let mut i: usize = 0;
        proof {
            lemma_count_matching_take_zero(self.entries@, f@);
        }
        while i < self.entries.len()
            invariant
                self.wf(),
                0 <= i <= self.entries@.len(),
                count <= i,
                count as nat == spec_count_matching(
                    spec_entries_map(self.entries@.take(i as int)),
                    f@,
                ),
            decreases self.entries@.len() - i,
        {
            proof {
                lemma_count_matching_take_step(self.entries@, i as int, f@);
            }
            let seen = self.entries[i].depth.is_seen();
            if seen {
                count = count + 1;
            }
            i = i + 1;
        }
        proof {
            assert(self.entries@.take(self.entries@.len() as int) =~= self.entries@);
        }
        count
    }

    /// Snapshot counts per depth bucket, for reporting.
    #[verifier::loop_isolation(false)]
    pub fn count_by_depth(&self) -> (r: DepthCounts)
        requires
            self.wf(),
        ensures
            r.unseen as nat == spec_count_matching(
                self@,
                |e: EntryModel| e.depth == ReadDepth::Unseen,
            ),
            r.name_only as nat == spec_count_matching(
                self@,
                |e: EntryModel| e.depth == ReadDepth::NameOnly,
            ),
            r.overview as nat == spec_count_matching(
                self@,
                |e: EntryModel| e.depth == ReadDepth::Overview,
            ),
            r.signature as nat == spec_count_matching(
                self@,
                |e: EntryModel| e.depth == ReadDepth::Signature,
            ),
            r.full_body as nat == spec_count_matching(
                self@,
                |e: EntryModel| e.depth == ReadDepth::FullBody,
            ),
            r.stale as nat == spec_count_matching(
                self@,
                |e: EntryModel| e.depth == ReadDepth::Stale,
            ),
    {
        let mut r = DepthCounts {
            unseen: 0,
            name_only: 0,
            overview: 0,
            signature: 0,
            full_body: 0,
            stale: 0,
        };
        let ghost fu = |e: EntryModel| e.depth == ReadDepth::Unseen;
        let ghost fn_ = |e: EntryModel| e.depth == ReadDepth::NameOnly;
        let ghost fo = |e: EntryModel| e.depth == ReadDepth::Overview;
        let ghost fs = |e: EntryModel| e.depth == ReadDepth::Signature;
        let ghost ff = |e: EntryModel| e.depth == ReadDepth::FullBody;
        let ghost ft = |e: EntryModel| e.depth == ReadDepth::Stale;
        let mut i: usize = 0;
        proof {
            lemma_count_matching_take_zero(self.entries@, fu);
            lemma_count_matching_take_zero(self.entries@, fn_);
            lemma_count_matching_take_zero(self.entries@, fo);
            lemma_count_matching_take_zero(self.entries@, fs);
            lemma_count_matching_take_zero(self.entries@, ff);
            lemma_count_matching_take_zero(self.entries@, ft);
        }
        while i < self.entries.len()
            invariant
                self.wf(),
                0 <= i <= self.entries@.len(),
                r.unseen <= i && r.name_only <= i && r.overview <= i && r.signature <= i
                    && r.full_body <= i && r.stale <= i,
                r.unseen as nat == spec_count_matching(
                    spec_entries_map(self.entries@.take(i as int)),
                    fu,
                ),
                r.name_only as nat == spec_count_matching(
                    spec_entries_map(self.entries@.take(i as int)),
                    fn_,
                ),
                r.overview as nat == spec_count_matching(
                    spec_entries_map(self.entries@.take(i as int)),
                    fo,
                ),
                r.signature as nat == spec_count_matching(
                    spec_entries_map(self.entries@.take(i as int)),
                    fs,
                ),
                r.full_body as nat == spec_count_matching(
                    spec_entries_map(self.entries@.take(i as int)),
                    ff,
                ),
                r.stale as nat == spec_count_matching(
                    spec_entries_map(self.entries@.take(i as int)),
                    ft,
                ),
            decreases self.entries@.len() - i,
        {
            proof {
                lemma_count_matching_take_step(self.entries@, i as int, fu);
                lemma_count_matching_take_step(self.entries@, i as int, fn_);
                lemma_count_matching_take_step(self.entries@, i as int, fo);
                lemma_count_matching_take_step(self.entries@, i as int, fs);
                lemma_count_matching_take_step(self.entries@, i as int, ff);
                lemma_count_matching_take_step(self.entries@, i as int, ft);
            }
            let d = self.entries[i].depth;
            match d {
                ReadDepth::Unseen => r.unseen = r.unseen + 1,
                ReadDepth::NameOnly => r.name_only = r.name_only + 1,
                ReadDepth::Overview => r.overview = r.overview + 1,
                ReadDepth::Signature => r.signature = r.signature + 1,
                ReadDepth::FullBody => r.full_body = r.full_body + 1,
                ReadDepth::Stale => r.stale = r.stale + 1,
            }
            i = i + 1;
        }
        proof {
            assert(self.entries@.take(self.entries@.len() as int) =~= self.entries@);
        }
        r
    }
}

/// Snapshot of how many ledger entries sit at each depth.
#[derive(Debug, Clone, Copy, PartialEq, Eq, Structural)]
pub struct DepthCounts {
    pub unseen: usize,
    pub name_only: usize,
    pub overview: usize,
    pub signature: usize,
    pub full_body: usize,
    pub stale: usize,
}

fn zero_hash() -> (r: Vec<u8>)
    ensures
        r@ == spec_baseline_entry().hash,
{
    let mut r: Vec<u8> = Vec::new();
    let mut i: usize = 0;
    while i < 32
        invariant
            0 <= i <= 32,
            r@.len() == i,
            forall|j: int| 0 <= j < i ==> r@[j] == 0u8,
        decreases 32 - i,
    {
        r.push(0u8);
        i = i + 1;
    }
    proof {
        assert(r@ =~= Seq::new(32, |i: int| 0u8));
    }
    r
}

proof fn lemma_count_matching_take_zero(s: Seq<ContextEntry>, f: spec_fn(EntryModel) -> bool)
    ensures
        spec_count_matching(spec_entries_map(s.take(0)), f) == 0,
{
    assert(s.take(0) =~= Seq::<ContextEntry>::empty());
    assert(spec_entries_map(s.take(0)) =~= Map::<Seq<char>, EntryModel>::empty());
    assert(Map::<Seq<char>, EntryModel>::empty().dom().filter(
        |k: Seq<char>| f(Map::<Seq<char>, EntryModel>::empty()[k]),
    ) =~= Set::<Seq<char>>::empty());
}

/// Extending a duplicate-free prefix by its next entry raises the matching
/// count by one exactly when the new entry matches.
proof fn lemma_count_matching_take_step(
    s: Seq<ContextEntry>,
    i: int,
    f: spec_fn(EntryModel) -> bool,
)
    requires
        forall|a: int, b: int|
            0 <= a < b < s.len() ==> (#[trigger] s[a]).symbol_id@ != (#[trigger] s[b]).symbol_id@,
        0 <= i < s.len(),
    ensures
        spec_count_matching(spec_entries_map(s.take(i + 1)), f) == spec_count_matching(
            spec_entries_map(s.take(i)),
            f,
        ) + (if f(s[i]@) {
            1nat
        } else {
            0nat
        }),
{
    let t0 = s.take(i);
    let t1 = s.take(i + 1);
    let m0 = spec_entries_map(t0);
    let m1 = spec_entries_map(t1);
    let k = s[i].symbol_id@;
    assert(t1.drop_last() =~= t0);
    assert(t1.last() == s[i]);
    assert(m1 == m0.insert(k, s[i]@));
    assert(forall|j: int| 0 <= j < t0.len() ==> (#[trigger] t0[j]).symbol_id@ != k);
    lemma_entries_map_absent(t0, k);
    lemma_entries_map_finite(t0);
    let set0 = m0.dom().filter(|kk: Seq<char>| f(m0[kk]));
    let set1 = m1.dom().filter(|kk: Seq<char>| f(m1[kk]));
    assert(m0.dom().finite());
    m0.dom().lemma_len_filter(|kk: Seq<char>| f(m0[kk]));
    if f(s[i]@) {
        assert(set1 =~= set0.insert(k));
        assert(!set0.contains(k));
        assert(set0.finite());
        assert(set1.len() == set0.len() + 1);
    } else {
        assert(set1 =~= set0);
    }
}

/// A `record` call with depth `Stale` always applies, whatever the current
/// depth: afterwards the id reads as `Stale`.
pub proof fn lemma_record_stale_overrides(
    m: Map<Seq<char>, EntryModel>,
    id: Seq<char>,
    hash: Seq<u8>,
    agent: Seq<char>,
    tokens: nat,
)
    ensures
        spec_depth_of(spec_record(m, id, ReadDepth::Stale, hash, agent, tokens), id)
            == ReadDepth::Stale,
{
}

/// One call of `record`, with the depth, hash, agent and token count it was
/// given.
pub ghost struct RecordCall {
    pub depth: ReadDepth,
    pub hash: Seq<u8>,
    pub agent: Seq<char>,
    pub tokens: nat,
}

/// The ledger after a whole sequence of `record` calls to one id.
pub open spec fn spec_record_all(
    m: Map<Seq<char>, EntryModel>,
    id: Seq<char>,
    calls: Seq<RecordCall>,
) -> Map<Seq<char>, EntryModel>
    decreases calls.len(),
{
    if calls.len() == 0 {
        m
    } else {
        let c = calls.last();
        spec_record(spec_record_all(m, id, calls.drop_last()), id, c.depth, c.hash, c.agent, c.tokens)
    }
}

/// The largest depth rank among a sequence of calls.
pub open spec fn spec_max_rank(calls: Seq<RecordCall>) -> nat
    decreases calls.len(),
{
    if calls.len() == 0 {
        0
    } else if calls.last().depth.spec_rank() > spec_max_rank(calls.drop_last()) {
        calls.last().depth.spec_rank()
    } else {
        spec_max_rank(calls.drop_last())
    }
}

/// Monotonic upgrade: after any sequence of `record` calls to one id, none of
/// them `Stale`, the id's depth rank is the maximum of its initial rank and
/// the ranks of the recorded depths — the deepest observation wins and no
/// later, shallower call erases it. The rank determines the depth, so on a
/// fresh id the final depth is the deepest depth recorded.
pub proof fn lemma_record_monotonic(
    m: Map<Seq<char>, EntryModel>,
    id: Seq<char>,
    calls: Seq<RecordCall>,
)
    requires
        forall|i: int| 0 <= i < calls.len() ==> (#[trigger] calls[i]).depth != ReadDepth::Stale,
    ensures
        spec_depth_of(spec_record_all(m, id, calls), id).spec_rank() == if spec_max_rank(calls)
            > spec_depth_of(m, id).spec_rank() {
            spec_max_rank(calls)
        } else {
            spec_depth_of(m, id).spec_rank()
        },
    decreases calls.len(),
{
    if calls.len() > 0 {
        let d = calls.drop_last();
        assert(forall|i: int| 0 <= i < d.len() ==> (#[trigger] d[i]).depth != ReadDepth::Stale);
        lemma_record_monotonic(m, id, d);
        assert(calls.last() == calls[calls.len() - 1]);
        assert(calls.last().depth != ReadDepth::Stale);
    }
}


/// Repeating a `record` call with identical arguments changes nothing: the
/// second application leaves the ledger exactly where the first put it.
pub proof fn lemma_record_idempotent(
    m: Map<Seq<char>, EntryModel>,
    id: Seq<char>,
    depth: ReadDepth,
    hash: Seq<u8>,
    agent: Seq<char>,
    tokens: nat,
)
    ensures
        spec_record(spec_record(m, id, depth, hash, agent, tokens), id, depth, hash, agent, tokens)
            == spec_record(m, id, depth, hash, agent, tokens),
{
    let m1 = spec_record(m, id, depth, hash, agent, tokens);
    let m2 = spec_record(m1, id, depth, hash, agent, tokens);
    assert(m2 =~= m1);
}

/// Repeating `mark_stale_if_changed` with the same hash changes nothing.
pub proof fn lemma_mark_stale_idempotent(
    m: Map<Seq<char>, EntryModel>,
    id: Seq<char>,
    current_hash: Seq<u8>,
)
    ensures
        spec_mark_stale(spec_mark_stale(m, id, current_hash), id, current_hash) == spec_mark_stale(
            m,
            id,
            current_hash,
        ),
{
    let m1 = spec_mark_stale(m, id, current_hash);
    let m2 = spec_mark_stale(m1, id, current_hash);
    assert(m2 =~= m1);
}


} // verus!

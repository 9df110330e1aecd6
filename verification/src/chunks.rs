//! Chunk level-of-detail bookkeeping: the per-chunk subscriber counts and LOD
//! markers, and the derived views of simulated and warm chunks.
use vstd::prelude::*;

use crate::assoc::{AssocList, StableKey, has_key, lemma_seq_map_at};
use crate::ids::ChunkCoord;
use crate::lod::MobilityActivity;

verus! {

/// What is known of a loaded chunk: how many clients watch it and which LOD
/// marker it carries (none while it is being set up).
#[derive(Debug, Clone, Copy, PartialEq, Eq, Structural)]
pub struct ChunkState {
    pub subscribers: u8,
    pub lod: Option<MobilityActivity>,
}

/// State of a chunk created on demand: nobody watches it and it sleeps.
pub open spec fn fresh_chunk() -> ChunkState {
    ChunkState { subscribers: 0, lod: Some(MobilityActivity::Asleep) }
}

/// `a + 1`, saturating at `u8::MAX`.
pub open spec fn sat_inc(a: u8) -> u8 {
    if a == u8::MAX { a } else { (a + 1) as u8 }
}

/// `a - 1`, saturating at zero.
pub open spec fn sat_dec(a: u8) -> u8 {
    if a == 0 { a } else { (a - 1) as u8 }
}

/// The chunk table after one more subscriber for `c` (creating the chunk).
pub open spec fn add_subscriber(m: Map<ChunkCoord, ChunkState>, c: ChunkCoord) -> Map<ChunkCoord, ChunkState> {
    let s = if m.contains_key(c) { m[c] } else { fresh_chunk() };
    m.insert(c, ChunkState { subscribers: sat_inc(s.subscribers), lod: s.lod })
}

/// The chunk table after one subscriber less for `c` (if the chunk is loaded).
pub open spec fn remove_subscriber(m: Map<ChunkCoord, ChunkState>, c: ChunkCoord) -> Map<ChunkCoord, ChunkState> {
    if m.contains_key(c) {
        m.insert(c, ChunkState { subscribers: sat_dec(m[c].subscribers), lod: m[c].lod })
    } else {
        m
    }
}

/// Subscribing the first `n` coordinates of `added` in order.
pub open spec fn add_all(m: Map<ChunkCoord, ChunkState>, added: Seq<ChunkCoord>, n: int) -> Map<ChunkCoord, ChunkState>
    decreases n,
{
    if n <= 0 { m } else { add_subscriber(add_all(m, added, n - 1), added[n - 1]) }
}

/// Unsubscribing the first `n` coordinates of `removed` in order.
pub open spec fn remove_all(m: Map<ChunkCoord, ChunkState>, removed: Seq<ChunkCoord>, n: int) -> Map<ChunkCoord, ChunkState>
    decreases n,
{
    if n <= 0 { m } else { remove_subscriber(remove_all(m, removed, n - 1), removed[n - 1]) }
}

/// Whether a LOD marker makes a chunk tick at full fidelity.
pub open spec fn is_simulated_lod(lod: Option<MobilityActivity>) -> bool {
    lod == Some(MobilityActivity::Active) || lod == Some(MobilityActivity::Hot)
}

/// The chunks whose marker is `Active` or `Hot`.
pub open spec fn simulated_of(m: Map<ChunkCoord, ChunkState>) -> Set<ChunkCoord> {
    Set::new(|c: ChunkCoord| m.contains_key(c) && is_simulated_lod(m[c].lod))
}

/// The chunks whose marker is `Warm`.
pub open spec fn warm_of(m: Map<ChunkCoord, ChunkState>) -> Set<ChunkCoord> {
    Set::new(|c: ChunkCoord| m.contains_key(c) && m[c].lod == Some(MobilityActivity::Warm))
}

/// The activity reported for a loaded chunk; a chunk without marker counts as asleep.
pub open spec fn reported_activity(s: ChunkState) -> MobilityActivity {
    match s.lod {
        Some(a) => a,
        None => MobilityActivity::Asleep,
    }
}

/// The loaded chunks with their LOD state, and the per-tick views of the
/// chunks that are simulated (`Active`/`Hot`) and of those that are `Warm`.
#[derive(Debug)]
pub struct ChunkTable {
    chunks: AssocList<ChunkCoord, ChunkState>,
    simulated: AssocList<ChunkCoord, ()>,
    warm: AssocList<ChunkCoord, ()>,
}

impl ChunkTable {
    #[verifier::type_invariant]
    spec fn well_formed(&self) -> bool {
        &&& self.chunks.well_formed()
        &&& self.simulated.well_formed()
        &&& self.warm.well_formed()
    }

    /// Loaded chunks and their state.
    pub closed spec fn states(&self) -> Map<ChunkCoord, ChunkState> {
        self.chunks.map()
    }

    /// The simulated-chunk view.
    pub closed spec fn simulated(&self) -> Set<ChunkCoord> {
        self.simulated.map().dom()
    }

    /// The warm-chunk view.
    pub closed spec fn warm(&self) -> Set<ChunkCoord> {
        self.warm.map().dom()
    }

    /// No chunk loaded, empty views.
    pub fn new() -> (r: Self)
        ensures
            r.states() =~= Map::empty(),
            r.simulated() =~= Set::empty(),
            r.warm() =~= Set::empty(),
    {
        ChunkTable { chunks: AssocList::new(), simulated: AssocList::new(), warm: AssocList::new() }
    }

    /// The state of chunk `coord`, if loaded.
    pub fn chunk_state(&self, coord: ChunkCoord) -> (r: Option<ChunkState>)
        ensures
            r == (if self.states().contains_key(coord) { Some(self.states()[coord]) } else { None }),
    {
        proof { use_type_invariant(self); }
        match self.chunks.get(&coord) {
            Some(s) => Some(*s),
            None => None,
        }
    }

    /// Activity class of chunk `coord`, or `None` when no chunk is loaded there.
    pub fn activity_for_chunk(&self, coord: ChunkCoord) -> (r: Option<MobilityActivity>)
        ensures
            r == (if self.states().contains_key(coord) { Some(reported_activity(self.states()[coord])) } else { None }),
    {
        match self.chunk_state(coord) {
            Some(s) => match s.lod {
                Some(a) => Some(a),
                None => Some(MobilityActivity::Asleep),
            },
            None => None,
        }
    }

    /// Number of subscribers of chunk `coord` (zero when not loaded).
    pub fn chunk_subscriber_count(&self, coord: ChunkCoord) -> (r: u8)
        ensures
            r == (if self.states().contains_key(coord) { self.states()[coord].subscribers } else { 0 }),
    {
        match self.chunk_state(coord) {
            Some(s) => s.subscribers,
            None => 0,
        }
    }

    /// Whether entities in chunk `coord` tick at full fidelity this tick.
    pub fn chunk_is_simulated(&self, coord: ChunkCoord) -> (r: bool)
        ensures
            r == self.simulated().contains(coord),
    {
        proof { use_type_invariant(self); }
        self.simulated.find(&coord).is_some()
    }

    /// Whether chunk `coord` is in the warm view.
    pub fn chunk_is_warm(&self, coord: ChunkCoord) -> (r: bool)
        ensures
            r == self.warm().contains(coord),
    {
        proof { use_type_invariant(self); }
        self.warm.find(&coord).is_some()
    }

    fn set_state(&mut self, coord: ChunkCoord, state: ChunkState)
        ensures
            final(self).states() == old(self).states().insert(coord, state),
            final(self).simulated() == old(self).simulated(),
            final(self).warm() == old(self).warm(),
    {
        proof { use_type_invariant(&*self); }
        let mut table = AssocList::new();
        std::mem::swap(&mut table, &mut self.chunks);
        table.insert(coord, state);
        self.chunks = table;
    }

    fn set_view(&mut self, coord: ChunkCoord, simulated: bool, warm: bool)
        ensures
            final(self).states() == old(self).states(),
            final(self).simulated() == (if simulated { old(self).simulated().insert(coord) } else { old(self).simulated().remove(coord) }),
            final(self).warm() == (if warm { old(self).warm().insert(coord) } else { old(self).warm().remove(coord) }),
    {
        proof { use_type_invariant(&*self); }
        let mut sim = AssocList::new();
        std::mem::swap(&mut sim, &mut self.simulated);
        if simulated {
            sim.insert(coord, ());
            assert(sim.map().dom() =~= old(self).simulated().insert(coord));
        } else {
            sim.remove(&coord);
            assert(sim.map().dom() =~= old(self).simulated().remove(coord));
        }
        self.simulated = sim;
        let mut wv = AssocList::new();
        std::mem::swap(&mut wv, &mut self.warm);
        if warm {
            wv.insert(coord, ());
            assert(wv.map().dom() =~= old(self).warm().insert(coord));
        } else {
            wv.remove(&coord);
            assert(wv.map().dom() =~= old(self).warm().remove(coord));
        }
        self.warm = wv;
    }

    /// Adds one subscriber to each chunk of `added` (loading missing chunks as
    /// asleep), then removes one from each loaded chunk of `removed`; counts
    /// saturate at both ends.
    pub fn apply_subscription_diff(&mut self, added: &[ChunkCoord], removed: &[ChunkCoord])
        ensures
            final(self).states() == remove_all(add_all(old(self).states(), added@, added@.len() as int), removed@, removed@.len() as int),
            final(self).simulated() == old(self).simulated(),
            final(self).warm() == old(self).warm(),
    {
        let n = added.len();
        let mut i: usize = 0;
        while i < n
            invariant
                n == added@.len(),
                i <= n,
                self.states() == add_all(old(self).states(), added@, i as int),
                self.simulated() == old(self).simulated(),
                self.warm() == old(self).warm(),
            decreases n - i,
        {
            let c = added[i];
            let s = match self.chunk_state(c) {
                Some(s) => s,
                None => ChunkState { subscribers: 0, lod: Some(MobilityActivity::Asleep) },
            };
            let subs = if s.subscribers == u8::MAX { s.subscribers } else { s.subscribers + 1 };
            self.set_state(c, ChunkState { subscribers: subs, lod: s.lod });
            i = i + 1;
        }
        let ghost mid = self.states();
        let m = removed.len();
        let mut j: usize = 0;
        while j < m
            invariant
                m == removed@.len(),
                j <= m,
                self.states() == remove_all(mid, removed@, j as int),
                self.simulated() == old(self).simulated(),
                self.warm() == old(self).warm(),
            decreases m - j,
        {
            let c = removed[j];
            if let Some(s) = self.chunk_state(c) {
                let subs = if s.subscribers == 0 { 0 } else { s.subscribers - 1 };
                self.set_state(c, ChunkState { subscribers: subs, lod: s.lod });
            }
            j = j + 1;
        }
    }

    /// Sets the subscriber count of chunk `coord`, loading it as asleep if needed.
    pub fn seed_chunk_subscriber_count(&mut self, coord: ChunkCoord, count: u8)
        ensures
            final(self).states() == old(self).states().insert(coord, ChunkState {
                subscribers: count,
                lod: if old(self).states().contains_key(coord) { old(self).states()[coord].lod } else { fresh_chunk().lod },
            }),
            final(self).simulated() == old(self).simulated(),
            final(self).warm() == old(self).warm(),
    {
        let lod = match self.chunk_state(coord) {
            Some(s) => s.lod,
            None => Some(MobilityActivity::Asleep),
        };
        self.set_state(coord, ChunkState { subscribers: count, lod });
    }

    /// Puts chunk `coord` (loading it if needed) under marker `activity` and
    /// updates the simulated and warm views for it at once.
    pub fn seed_chunk_activity(&mut self, coord: ChunkCoord, activity: MobilityActivity)
        ensures
            final(self).states() == old(self).states().insert(coord, ChunkState {
                subscribers: if old(self).states().contains_key(coord) { old(self).states()[coord].subscribers } else { 0 },
                lod: Some(activity),
            }),
            final(self).simulated() == (if is_simulated_lod(Some(activity)) { old(self).simulated().insert(coord) } else { old(self).simulated().remove(coord) }),
            final(self).warm() == (if activity == MobilityActivity::Warm { old(self).warm().insert(coord) } else { old(self).warm().remove(coord) }),
    {
        let subs = match self.chunk_state(coord) {
            Some(s) => s.subscribers,
            None => 0,
        };
        self.set_state(coord, ChunkState { subscribers: subs, lod: Some(activity) });
        let sim = match activity {
            MobilityActivity::Active | MobilityActivity::Hot => true,
            _ => false,
        };
        let warm = match activity {
            MobilityActivity::Warm => true,
            _ => false,
        };
        self.set_view(coord, sim, warm);
    }

    /// Rebuilds the simulated and warm views from the chunk markers.
    pub fn refresh_simulated_chunks(&mut self)
        ensures
            final(self).states() == old(self).states(),
            final(self).simulated() =~= simulated_of(old(self).states()),
            final(self).warm() =~= warm_of(old(self).states()),
    {
        proof { use_type_invariant(&*self); }
        let mut sim: AssocList<ChunkCoord, ()> = AssocList::new();
        let mut wv: AssocList<ChunkCoord, ()> = AssocList::new();
        let n = self.chunks.len();
        let mut i: usize = 0;
        while i < n
            invariant
                n == self.chunks.entries@.len(),
                self.chunks.well_formed(),
                sim.well_formed(),
                wv.well_formed(),
                i <= n,
                forall|c: ChunkCoord| sim.map().dom().contains(c) <==> exists|j: int| 0 <= j < i
                    && (#[trigger] self.chunks.entries@[j]).0 == c && is_simulated_lod(self.chunks.entries@[j].1.lod),
                forall|c: ChunkCoord| wv.map().dom().contains(c) <==> exists|j: int| 0 <= j < i
                    && (#[trigger] self.chunks.entries@[j]).0 == c && self.chunks.entries@[j].1.lod == Some(MobilityActivity::Warm),
            decreases n - i,
        {
            let entry = self.chunks.entry_at(i);
            let c = entry.0;
            let lod = entry.1.lod;
            let is_sim = match lod {
                Some(MobilityActivity::Active) | Some(MobilityActivity::Hot) => true,
                _ => false,
            };
            let is_warm = match lod {
                Some(MobilityActivity::Warm) => true,
                _ => false,
            };
            if is_sim {
                sim.insert(c, ());
            }
            if is_warm {
                wv.insert(c, ());
            }
            proof {
                assert forall|d: ChunkCoord| sim.map().dom().contains(d) <==> exists|j: int| 0 <= j < i + 1
                    && (#[trigger] self.chunks.entries@[j]).0 == d && is_simulated_lod(self.chunks.entries@[j].1.lod) by {
                    if d == c && is_sim {
                        assert(self.chunks.entries@[i as int].0 == d);
                    }
                }
                assert forall|d: ChunkCoord| wv.map().dom().contains(d) <==> exists|j: int| 0 <= j < i + 1
                    && (#[trigger] self.chunks.entries@[j]).0 == d && self.chunks.entries@[j].1.lod == Some(MobilityActivity::Warm) by {
                    if d == c && is_warm {
                        assert(self.chunks.entries@[i as int].0 == d);
                    }
                }
            }
            i = i + 1;
        }
        proof {
            assert forall|c: ChunkCoord| sim.map().dom().contains(c) <==> simulated_of(self.states()).contains(c) by {
                if sim.map().dom().contains(c) {
                    let j = choose|j: int| 0 <= j < n && (#[trigger] self.chunks.entries@[j]).0 == c && is_simulated_lod(self.chunks.entries@[j].1.lod);
                    lemma_seq_map_at(self.chunks.entries@, j);
                }
                if simulated_of(self.states()).contains(c) {
                    assert(has_key(self.chunks.entries@, c));
                    let j = choose|j: int| 0 <= j < self.chunks.entries@.len() && (#[trigger] self.chunks.entries@[j]).0.key() == c;
                    lemma_seq_map_at(self.chunks.entries@, j);
                }
            }
            assert forall|c: ChunkCoord| wv.map().dom().contains(c) <==> warm_of(self.states()).contains(c) by {
                if wv.map().dom().contains(c) {
                    let j = choose|j: int| 0 <= j < n && (#[trigger] self.chunks.entries@[j]).0 == c && self.chunks.entries@[j].1.lod == Some(MobilityActivity::Warm);
                    lemma_seq_map_at(self.chunks.entries@, j);
                }
                if warm_of(self.states()).contains(c) {
                    assert(has_key(self.chunks.entries@, c));
                    let j = choose|j: int| 0 <= j < self.chunks.entries@.len() && (#[trigger] self.chunks.entries@[j]).0.key() == c;
                    lemma_seq_map_at(self.chunks.entries@, j);
                }
            }
        }
        self.simulated = sim;
        self.warm = wv;
    }

    /// The subscriber count of every loaded chunk that has at least one subscriber.
    pub fn chunk_subscriber_counts_snapshot(&self) -> (r: AssocList<ChunkCoord, u8>)
        ensures
            r.well_formed(),
            forall|c: ChunkCoord| #[trigger] r.map().contains_key(c) <==> (self.states().contains_key(c) && self.states()[c].subscribers > 0),
            forall|c: ChunkCoord| #[trigger] r.map().contains_key(c) ==> r.map()[c] == self.states()[c].subscribers,
    {
        proof { use_type_invariant(self); }
        let mut out: AssocList<ChunkCoord, u8> = AssocList::new();
        let n = self.chunks.len();
        let mut i: usize = 0;
        while i < n
            invariant
                n == self.chunks.entries@.len(),
                self.chunks.well_formed(),
                out.well_formed(),
                i <= n,
                forall|c: ChunkCoord| #[trigger] out.map().contains_key(c) <==> exists|j: int| 0 <= j < i
                    && (#[trigger] self.chunks.entries@[j]).0 == c && self.chunks.entries@[j].1.subscribers > 0,
                forall|c: ChunkCoord| #[trigger] out.map().contains_key(c) ==> out.map()[c] == self.states()[c].subscribers,
            decreases n - i,
        {
            let entry = self.chunks.entry_at(i);
            let c = entry.0;
            let count = entry.1.subscribers;
            proof { lemma_seq_map_at(self.chunks.entries@, i as int); }
            if count > 0 {
                out.insert(c, count);
            }
            proof {
                assert forall|d: ChunkCoord| #[trigger] out.map().contains_key(d) <==> exists|j: int| 0 <= j < i + 1
                    && (#[trigger] self.chunks.entries@[j]).0 == d && self.chunks.entries@[j].1.subscribers > 0 by {
                    if d == c && count > 0 {
                        assert(self.chunks.entries@[i as int].0 == d);
                    }
                }
            }
            i = i + 1;
        }
        proof {
            assert forall|c: ChunkCoord| #[trigger] out.map().contains_key(c) <==> (self.states().contains_key(c) && self.states()[c].subscribers > 0) by {
                if out.map().contains_key(c) {
                    let j = choose|j: int| 0 <= j < n && (#[trigger] self.chunks.entries@[j]).0 == c && self.chunks.entries@[j].1.subscribers > 0;
                    lemma_seq_map_at(self.chunks.entries@, j);
                }
                if self.states().contains_key(c) && self.states()[c].subscribers > 0 {
                    assert(has_key(self.chunks.entries@, c));
                    let j = choose|j: int| 0 <= j < self.chunks.entries@.len() && (#[trigger] self.chunks.entries@[j]).0.key() == c;
                    lemma_seq_map_at(self.chunks.entries@, j);
                }
            }
        }
        out
    }
}

/// Subscribing to a chunk and unsubscribing again leaves its count as it was,
/// unless the count was already at its ceiling; a chunk that was not loaded
/// stays loaded, asleep, with no subscriber.
pub proof fn lemma_subscribe_unsubscribe(m: Map<ChunkCoord, ChunkState>, c: ChunkCoord)
    ensures
        m.contains_key(c) && m[c].subscribers < u8::MAX ==> remove_subscriber(add_subscriber(m, c), c) =~= m,
        !m.contains_key(c) ==> remove_subscriber(add_subscriber(m, c), c) =~= m.insert(c, fresh_chunk()),
{
    if m.contains_key(c) && m[c].subscribers < u8::MAX {
        assert(m.insert(c, m[c]) =~= m);
    }
}

/// After a refresh, a chunk is in the simulated view exactly when its marker
/// is `Active` or `Hot`, and in the warm view exactly when it is `Warm`; no
/// chunk is in both.
pub proof fn lemma_refreshed_views_disjoint(m: Map<ChunkCoord, ChunkState>, c: ChunkCoord)
    ensures
        !(simulated_of(m).contains(c) && warm_of(m).contains(c)),
        simulated_of(m).contains(c) <==> (m.contains_key(c) && is_simulated_lod(m[c].lod)),
        warm_of(m).contains(c) <==> (m.contains_key(c) && m[c].lod == Some(MobilityActivity::Warm)),
{
}

} // verus!

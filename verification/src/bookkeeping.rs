//! Per-chunk population bookkeeping: the chunk each agent and vehicle was
//! last seen in, and how many entities (plus the warm-chunk flow aggregate)
//! each chunk holds.
use vstd::prelude::*;

use crate::assoc::{AssocList, StableKey, lemma_seq_map_dom};
use crate::ids::ChunkCoord;

verus! {

/// Where each tracked entity was last seen: its chunk, and whether it is a
/// vehicle (else an agent).
pub type Located = Map<u64, (ChunkCoord, bool)>;

/// The entities located in chunk `c`.
pub open spec fn in_chunk(located: Located, c: ChunkCoord) -> Set<u64> {
    located.dom().filter(|e: u64| located[e].0 == c)
}

/// The count stored for `c` (zero when none is).
pub open spec fn count_at(m: Map<ChunkCoord, u32>, c: ChunkCoord) -> nat {
    if m.contains_key(c) { m[c] as nat } else { 0 }
}

/// Each chunk's count is the number of entities located in it.
pub open spec fn counts_match(located: Located, pops: Map<ChunkCoord, u32>) -> bool {
    &&& located.dom().finite()
    &&& forall|c: ChunkCoord| #[trigger] count_at(pops, c) == in_chunk(located, c).len()
}

/// The entities of a chunk are among the located ones.
proof fn lemma_in_chunk_bounded(m: Located, c: ChunkCoord)
    requires
        m.dom().finite(),
    ensures
        in_chunk(m, c).finite(),
        in_chunk(m, c).len() <= m.dom().len(),
{
    vstd::set_lib::lemma_len_subset(in_chunk(m, c), m.dom());
}

/// Placing entity `e` (in chunk `v.0`) moves it out of its former chunk's
/// set and into its new one.
proof fn lemma_in_chunk_insert(m: Located, e: u64, v: (ChunkCoord, bool), c: ChunkCoord)
    requires
        m.dom().finite(),
    ensures
        m.insert(e, v).dom().finite(),
        in_chunk(m.insert(e, v), c).len() == in_chunk(m, c).len()
            - (if m.contains_key(e) && m[e].0 == c { 1int } else { 0 }) + (if v.0 == c { 1int } else { 0 }),
{
    lemma_in_chunk_bounded(m, c);
    let before = in_chunk(m, c);
    let base = before.remove(e);
    assert(in_chunk(m.insert(e, v), c) =~= if v.0 == c { base.insert(e) } else { base });
    if m.contains_key(e) && m[e].0 == c {
        assert(before.contains(e));
    } else {
        assert(base =~= before);
    }
}

/// Forgetting entity `e` takes it out of its chunk's set.
proof fn lemma_in_chunk_remove(m: Located, e: u64, c: ChunkCoord)
    requires
        m.dom().finite(),
    ensures
        m.remove(e).dom().finite(),
        in_chunk(m.remove(e), c).len() == in_chunk(m, c).len() - (if m.contains_key(e) && m[e].0 == c { 1int } else { 0 }),
{
    lemma_in_chunk_bounded(m, c);
    let before = in_chunk(m, c);
    assert(in_chunk(m.remove(e), c) =~= before.remove(e));
    if m.contains_key(e) && m[e].0 == c {
        assert(before.contains(e));
    }
}

/// No entity is located anywhere.
proof fn lemma_in_chunk_empty(c: ChunkCoord)
    ensures
        in_chunk(Map::<u64, (ChunkCoord, bool)>::empty(), c).len() == 0,
{
    assert(in_chunk(Map::<u64, (ChunkCoord, bool)>::empty(), c) =~= Set::empty());
}

/// The count stored for `c`.
fn count_of(pops: &AssocList<ChunkCoord, u32>, c: ChunkCoord) -> (r: u32)
    requires
        pops.well_formed(),
    ensures
        r == count_at(pops.map(), c),
{
    match pops.get(&c) {
        Some(v) => *v,
        None => 0,
    }
}

/// Locates `e` in chunk `c` (as a vehicle when `vehicle`), moving it out of
/// any chunk it was in, and keeps the counts in step.
fn place(located: &mut AssocList<u64, (ChunkCoord, bool)>, pops: &mut AssocList<ChunkCoord, u32>, e: u64, c: ChunkCoord, vehicle: bool)
    requires
        old(located).well_formed(),
        old(pops).well_formed(),
        counts_match(old(located).map(), old(pops).map()),
        old(located).map().dom().len() < u32::MAX,
    ensures
        final(located).well_formed(),
        final(pops).well_formed(),
        final(located).map() == old(located).map().insert(e, (c, vehicle)),
        counts_match(final(located).map(), final(pops).map()),
{
    let ghost m0 = located.map();
    let ghost p0 = pops.map();
    match located.get(&e) {
        Some(prev) => {
            let old_chunk = prev.0;
            let n = count_of(pops, old_chunk);
            proof {
                assert(in_chunk(m0, old_chunk).contains(e));
                assert(count_at(p0, old_chunk) == in_chunk(m0, old_chunk).len());
                assert(n >= 1);
            }
            pops.insert(old_chunk, n - 1);
        },
        None => {},
    }
    let ghost p1 = pops.map();
    let ghost m1 = m0.remove(e);
    proof {
        assert forall|d: ChunkCoord| #[trigger] count_at(p1, d) == in_chunk(m1, d).len() by {
            lemma_in_chunk_remove(m0, e, d);
            assert(count_at(p0, d) == in_chunk(m0, d).len());
            if m0.contains_key(e) {
                assert(p1 == p0.insert(m0[e].0, (count_at(p0, m0[e].0) - 1) as u32));
            } else {
                assert(p1 == p0);
            }
        }
        lemma_in_chunk_bounded(m1, c);
        assert(m1.dom().len() <= m0.dom().len()) by {
            vstd::set_lib::lemma_len_subset(m1.dom(), m0.dom());
        }
    }
    let k = count_of(pops, c);
    assert(count_at(p1, c) == in_chunk(m1, c).len());
    pops.insert(c, k + 1);
    located.insert(e, (c, vehicle));
    proof {
        assert(m0.insert(e, (c, vehicle)) =~= m1.insert(e, (c, vehicle)));
        assert(!m1.contains_key(e));
        assert forall|d: ChunkCoord| #[trigger] count_at(pops.map(), d) == in_chunk(located.map(), d).len() by {
            lemma_in_chunk_insert(m1, e, (c, vehicle), d);
            assert(count_at(p1, d) == in_chunk(m1, d).len());
        }
        lemma_in_chunk_insert(m1, e, (c, vehicle), c);
    }
}

/// Forgets `e`, and keeps the counts in step.
fn forget(located: &mut AssocList<u64, (ChunkCoord, bool)>, pops: &mut AssocList<ChunkCoord, u32>, e: u64)
    requires
        old(located).well_formed(),
        old(pops).well_formed(),
        counts_match(old(located).map(), old(pops).map()),
    ensures
        final(located).well_formed(),
        final(pops).well_formed(),
        final(located).map() == old(located).map().remove(e),
        counts_match(final(located).map(), final(pops).map()),
{
    let ghost m0 = located.map();
    let ghost p0 = pops.map();
    match located.remove(&e) {
        Some(prev) => {
            let old_chunk = prev.0;
            let n = count_of(pops, old_chunk);
            proof {
                assert(in_chunk(m0, old_chunk).contains(e));
                assert(count_at(p0, old_chunk) == in_chunk(m0, old_chunk).len());
            }
            pops.insert(old_chunk, n - 1);
        },
        None => {},
    }
    proof {
        assert forall|d: ChunkCoord| #[trigger] count_at(pops.map(), d) == in_chunk(located.map(), d).len() by {
            lemma_in_chunk_remove(m0, e, d);
            assert(count_at(p0, d) == in_chunk(m0, d).len());
            if m0.contains_key(e) {
                assert(pops.map() == p0.insert(m0[e].0, (count_at(p0, m0[e].0) - 1) as u32));
            } else {
                assert(pops.map() == p0);
            }
        }
    }
}

/// The locations after entities of one kind (vehicles when `vehicle`) were
/// seen at `moves`, in order: an entity seen in another chunk than the one
/// it was located in (or not located yet) is located there; one seen where
/// it already was stays as it was.
pub open spec fn apply_moves(m: Located, moves: Seq<(u64, ChunkCoord)>, vehicle: bool) -> Located
    decreases moves.len(),
{
    if moves.len() == 0 {
        m
    } else {
        let m1 = apply_moves(m, moves.drop_last(), vehicle);
        let (e, c) = moves.last();
        if m1.contains_key(e) && m1[e].0 == c { m1 } else { m1.insert(e, (c, vehicle)) }
    }
}

/// The locations after entities of one kind were located at `seen`, in
/// order, whatever they were before.
pub open spec fn locate_all(m: Located, seen: Seq<(u64, ChunkCoord)>, vehicle: bool) -> Located
    decreases seen.len(),
{
    if seen.len() == 0 {
        m
    } else {
        locate_all(m, seen.drop_last(), vehicle).insert(seen.last().0, (seen.last().1, vehicle))
    }
}

/// The entity ids of `seen`.
pub open spec fn ids_of(seen: Seq<(u64, ChunkCoord)>) -> Set<u64> {
    Set::new(|e: u64| exists|i: int| 0 <= i < seen.len() && #[trigger] seen[i].0 == e)
}

/// The locations of the entities that are still alive.
pub open spec fn keep_alive(m: Located, alive: Set<u64>) -> Located {
    Map::new(|e: u64| m.contains_key(e) && alive.contains(e), |e: u64| m[e])
}

/// The flow aggregates worth counting: the positive ones, by chunk.
pub open spec fn positive_flows(totals: Seq<(ChunkCoord, u32)>) -> Map<ChunkCoord, u32>
    decreases totals.len(),
{
    if totals.len() == 0 {
        Map::empty()
    } else {
        let rest = positive_flows(totals.drop_last());
        let (c, a) = totals.last();
        if a > 0 { rest.insert(c, a) } else { rest }
    }
}

/// Counts and locations that agree, with room for `room` more entities.
pub open spec fn consistent(located: AssocList<u64, (ChunkCoord, bool)>, counts: AssocList<ChunkCoord, u32>) -> bool {
    &&& located.well_formed()
    &&& counts.well_formed()
    &&& counts_match(located.map(), counts.map())
}

/// Applies the moves `moves` of entities of one kind (see `apply_moves`).
fn apply_moves_exec(
    located: &mut AssocList<u64, (ChunkCoord, bool)>,
    counts: &mut AssocList<ChunkCoord, u32>,
    moves: &Vec<(u64, ChunkCoord)>,
    vehicle: bool,
)
    requires
        consistent(*old(located), *old(counts)),
        old(located).map().dom().len() + moves@.len() < u32::MAX,
    ensures
        consistent(*final(located), *final(counts)),
        final(located).map() == apply_moves(old(located).map(), moves@, vehicle),
        final(located).map().dom().len() <= old(located).map().dom().len() + moves@.len(),
{
    let ghost m0 = located.map();
    let n = moves.len();
    let mut i: usize = 0;
    assert(moves@.subrange(0, 0) =~= Seq::<(u64, ChunkCoord)>::empty());
    while i < n
        invariant
            n == moves@.len(),
            i <= n,
            consistent(*located, *counts),
            located.map() == apply_moves(m0, moves@.subrange(0, i as int), vehicle),
            located.map().dom().len() <= m0.dom().len() + i,
            m0.dom().len() + moves@.len() < u32::MAX,
        decreases n - i,
    {
        let (e, c) = moves[i];
        let ghost before = located.map();
        assert(moves@.subrange(0, i + 1).drop_last() =~= moves@.subrange(0, i as int));
        assert(moves@.subrange(0, i + 1).last() == (e, c));
        let stay = match located.get(&e) {
            Some(prev) => prev.0 == c,
            None => false,
        };
        if !stay {
            place(located, counts, e, c, vehicle);
            proof {
                assert(located.map().dom() =~= before.dom().insert(e));
            }
        }
        i = i + 1;
    }
    assert(moves@.subrange(0, n as int) =~= moves@);
}

/// Locates every entity of `seen` (see `locate_all`).
fn locate_all_exec(
    located: &mut AssocList<u64, (ChunkCoord, bool)>,
    counts: &mut AssocList<ChunkCoord, u32>,
    seen: &Vec<(u64, ChunkCoord)>,
    vehicle: bool,
)
    requires
        consistent(*old(located), *old(counts)),
        old(located).map().dom().len() + seen@.len() < u32::MAX,
    ensures
        consistent(*final(located), *final(counts)),
        final(located).map() == locate_all(old(located).map(), seen@, vehicle),
        final(located).map().dom().len() <= old(located).map().dom().len() + seen@.len(),
{
    let ghost m0 = located.map();
    let n = seen.len();
    let mut i: usize = 0;
    assert(seen@.subrange(0, 0) =~= Seq::<(u64, ChunkCoord)>::empty());
    while i < n
        invariant
            n == seen@.len(),
            i <= n,
            consistent(*located, *counts),
            located.map() == locate_all(m0, seen@.subrange(0, i as int), vehicle),
            located.map().dom().len() <= m0.dom().len() + i,
            m0.dom().len() + seen@.len() < u32::MAX,
        decreases n - i,
    {
        let (e, c) = seen[i];
        let ghost before = located.map();
        assert(seen@.subrange(0, i + 1).drop_last() =~= seen@.subrange(0, i as int));
        assert(seen@.subrange(0, i + 1).last() == (e, c));
        place(located, counts, e, c, vehicle);
        proof {
            assert(located.map().dom() =~= before.dom().insert(e));
        }
        i = i + 1;
    }
    assert(seen@.subrange(0, n as int) =~= seen@);
}

/// Whether `e` is among the ids of `seen`.
fn seen_contains(seen: &Vec<(u64, ChunkCoord)>, e: u64) -> (r: bool)
    ensures
        r == ids_of(seen@).contains(e),
{
    let mut i: usize = 0;
    while i < seen.len()
        invariant
            i <= seen@.len(),
            forall|j: int| 0 <= j < i ==> seen@[j].0 != e,
        decreases seen@.len() - i,
    {
        if seen[i].0 == e {
            assert(seen@[i as int].0 == e);
            return true;
        }
        i = i + 1;
    }
    false
}

/// Whether `x` is among the first `t` items of `s`.
pub open spec fn among_first(s: Seq<u64>, t: int, x: u64) -> bool {
    exists|j: int| 0 <= j < t && s[j] == x
}

/// Forgets every located entity that is neither in `agents` nor in `vehicles`.
fn forget_departed(
    located: &mut AssocList<u64, (ChunkCoord, bool)>,
    counts: &mut AssocList<ChunkCoord, u32>,
    agents: &Vec<(u64, ChunkCoord)>,
    vehicles: &Vec<(u64, ChunkCoord)>,
)
    requires
        consistent(*old(located), *old(counts)),
    ensures
        consistent(*final(located), *final(counts)),
        final(located).map() == keep_alive(old(located).map(), ids_of(agents@) + ids_of(vehicles@)),
{
    let ghost m0 = located.map();
    let ghost alive = ids_of(agents@) + ids_of(vehicles@);
    let mut departed: Vec<u64> = Vec::new();
    let n = located.len();
    let mut i: usize = 0;
    while i < n
        invariant
            n == located.entries@.len(),
            i <= n,
            consistent(*located, *counts),
            located.map() == m0,
            alive == ids_of(agents@) + ids_of(vehicles@),
            forall|e: u64| departed@.contains(e) <==> (exists|j: int| 0 <= j < i && #[trigger] located.entries@[j].0 == e && !alive.contains(e)),
        decreases n - i,
    {
        let e = located.entry_at(i).0;
        let ghost before = departed@;
        if !seen_contains(agents, e) && !seen_contains(vehicles, e) {
            departed.push(e);
        }
        proof {
            assert forall|x: u64| departed@.contains(x) <==> (exists|j: int| 0 <= j < i + 1 && #[trigger] located.entries@[j].0 == x && !alive.contains(x)) by {
                if departed@.contains(x) && !before.contains(x) {
                    assert(departed@.last() == x || before.contains(x)) by {
                        let k = choose|k: int| 0 <= k < departed@.len() && departed@[k] == x;
                        if k < before.len() {
                            assert(before[k] == x);
                        }
                    }
                    assert(located.entries@[i as int].0 == x);
                }
                if before.contains(x) {
                    let k = choose|k: int| 0 <= k < before.len() && before[k] == x;
                    assert(departed@[k] == x);
                }
                if exists|j: int| 0 <= j < i + 1 && #[trigger] located.entries@[j].0 == x && !alive.contains(x) {
                    let j = choose|j: int| 0 <= j < i + 1 && #[trigger] located.entries@[j].0 == x && !alive.contains(x);
                    if j == i {
                        assert(departed@[departed@.len() - 1] == x);
                    }
                }
            }
        }
        i = i + 1;
    }
    proof {
        assert forall|e: u64| departed@.contains(e) <==> (m0.contains_key(e) && !alive.contains(e)) by {
            if m0.contains_key(e) {
                let j = choose|j: int| 0 <= j < located.entries@.len() && (#[trigger] located.entries@[j]).0.key() == e;
                assert(located.entries@[j].0 == e);
            }
            if exists|j: int| 0 <= j < n && #[trigger] located.entries@[j].0 == e && !alive.contains(e) {
                let j = choose|j: int| 0 <= j < n && #[trigger] located.entries@[j].0 == e && !alive.contains(e);
                assert(crate::assoc::has_key(located.entries@, e));
            }
        }
    }
    let k = departed.len();
    let mut t: usize = 0;
    assert(located.map() =~= Map::new(|e: u64| m0.contains_key(e) && !among_first(departed@, 0, e), |e: u64| m0[e]));
    while t < k
        invariant
            k == departed@.len(),
            t <= k,
            consistent(*located, *counts),
            forall|e: u64| departed@.contains(e) <==> (m0.contains_key(e) && !alive.contains(e)),
            located.map() == Map::new(|e: u64| m0.contains_key(e) && !among_first(departed@, t as int, e), |e: u64| m0[e]),
        decreases k - t,
    {
        let e = departed[t];
        forget(located, counts, e);
        proof {
            assert forall|x: u64| #[trigger] among_first(departed@, t + 1, x) <==> (among_first(departed@, t as int, x) || x == e) by {
                if x == e {
                    assert(departed@[t as int] == x);
                }
                if among_first(departed@, t + 1, x) && x != e {
                    let j = choose|j: int| 0 <= j < t + 1 && departed@[j] == x;
                    assert(j < t);
                }
            }
            assert(located.map() =~= Map::new(|x: u64| m0.contains_key(x) && !among_first(departed@, t + 1, x), |x: u64| m0[x]));
        }
        t = t + 1;
    }
    proof {
        assert forall|x: u64| #[trigger] among_first(departed@, k as int, x) <==> departed@.contains(x) by {}
        assert(located.map() =~= keep_alive(m0, alive));
    }
}

/// Population bookkeeping of the chunks: where each agent and vehicle was
/// last seen, how many of them each chunk holds, and the flow aggregate of
/// each warm chunk. A chunk's population is its entities plus its flow.
#[derive(Debug)]
pub struct ChunkPopulationTracker {
    located: AssocList<u64, (ChunkCoord, bool)>,
    counts: AssocList<ChunkCoord, u32>,
    flow: AssocList<ChunkCoord, u32>,
}

impl ChunkPopulationTracker {
    /// The lists are consistent: counts match the locations, and each
    /// chunk's population fits in a `u32`.
    pub closed spec fn well_formed(&self) -> bool {
        &&& self.located.well_formed()
        &&& self.counts.well_formed()
        &&& self.flow.well_formed()
        &&& counts_match(self.located.map(), self.counts.map())
        &&& forall|c: ChunkCoord| #[trigger] count_at(self.counts.map(), c) + count_at(self.flow.map(), c) <= u32::MAX
    }

    /// Where each tracked entity was last seen, and whether it is a vehicle.
    pub closed spec fn located(&self) -> Located {
        self.located.map()
    }

    /// The flow aggregate counted for each chunk.
    pub closed spec fn flows(&self) -> Map<ChunkCoord, u32> {
        self.flow.map()
    }

    /// The population of chunk `c`: its entities and its flow aggregate.
    pub open spec fn population_of(&self, c: ChunkCoord) -> nat {
        in_chunk(self.located(), c).len() + count_at(self.flows(), c)
    }

    /// Nothing tracked.
    pub fn new() -> (r: Self)
        ensures
            r.well_formed(),
            r.located() =~= Map::empty(),
            r.flows() =~= Map::empty(),
    {
        let r = ChunkPopulationTracker { located: AssocList::new(), counts: AssocList::new(), flow: AssocList::new() };
        proof {
            assert(r.located.map().dom() =~= Set::empty());
            assert forall|c: ChunkCoord| #[trigger] count_at(r.counts.map(), c) == in_chunk(r.located.map(), c).len() by {
                lemma_in_chunk_empty(c);
                assert(r.located.map() =~= Map::<u64, (ChunkCoord, bool)>::empty());
            }
        }
        r
    }

    /// Number of tracked entities.
    pub fn tracked_count(&self) -> (r: usize)
        requires
            self.well_formed(),
        ensures
            r == self.located().dom().len(),
    {
        proof { lemma_seq_map_dom(self.located.entries@); }
        self.located.len()
    }

    /// The population of chunk `c`.
    pub fn population(&self, c: ChunkCoord) -> (r: u32)
        requires
            self.well_formed(),
        ensures
            r == self.population_of(c),
    {
        assert(count_at(self.counts.map(), c) + count_at(self.flow.map(), c) <= u32::MAX);
        count_of(&self.counts, c) + count_of(&self.flow, c)
    }

    /// One bookkeeping pass. On the first one (nothing tracked yet) every
    /// agent and vehicle is located from scratch; later passes locate the
    /// agents and vehicles that moved (see `apply_moves`) and forget the
    /// entities that are neither among `all_agents` nor among
    /// `all_vehicles`. Either way the flow aggregates become the positive
    /// `flow_totals`.
    pub fn track(
        &mut self,
        moved_agents: &Vec<(u64, ChunkCoord)>,
        moved_vehicles: &Vec<(u64, ChunkCoord)>,
        all_agents: &Vec<(u64, ChunkCoord)>,
        all_vehicles: &Vec<(u64, ChunkCoord)>,
        flow_totals: &Vec<(ChunkCoord, u32)>,
    )
        requires
            old(self).well_formed(),
            old(self).located().dom().len() + moved_agents@.len() + moved_vehicles@.len() + all_agents@.len()
                + all_vehicles@.len() < u32::MAX,
            forall|i: int| 0 <= i < flow_totals@.len() ==> old(self).located().dom().len() + moved_agents@.len()
                + moved_vehicles@.len() + all_agents@.len() + all_vehicles@.len() + (#[trigger] flow_totals@[i]).1 <= u32::MAX,
        ensures
            final(self).well_formed(),
            final(self).located() == (if old(self).located().dom().len() == 0 {
                locate_all(locate_all(Map::empty(), all_agents@, false), all_vehicles@, true)
            } else {
                keep_alive(
                    apply_moves(apply_moves(old(self).located(), moved_agents@, false), moved_vehicles@, true),
                    ids_of(all_agents@) + ids_of(all_vehicles@),
                )
            }),
            final(self).flows() == positive_flows(flow_totals@),
    {
        let ghost bound: int = (old(self).located().dom().len() + moved_agents@.len() + moved_vehicles@.len()
            + all_agents@.len() + all_vehicles@.len()) as int;
        proof { lemma_seq_map_dom(self.located.entries@); }
        let mut located = AssocList::new();
        let mut counts = AssocList::new();
        std::mem::swap(&mut located, &mut self.located);
        std::mem::swap(&mut counts, &mut self.counts);
        assert(consistent(located, counts));
        let ghost m0 = located.map();
        if located.len() == 0 {
            located = AssocList::new();
            counts = AssocList::new();
            proof {
                assert(located.map().dom() =~= Set::empty());
                assert forall|c: ChunkCoord| #[trigger] count_at(counts.map(), c) == in_chunk(located.map(), c).len() by {
                    lemma_in_chunk_empty(c);
                    assert(located.map() =~= Map::<u64, (ChunkCoord, bool)>::empty());
                }
            }
            locate_all_exec(&mut located, &mut counts, all_agents, false);
            locate_all_exec(&mut located, &mut counts, all_vehicles, true);

        } else {
            apply_moves_exec(&mut located, &mut counts, moved_agents, false);
            apply_moves_exec(&mut located, &mut counts, moved_vehicles, true);
            let ghost before = located.map();
            forget_departed(&mut located, &mut counts, all_agents, all_vehicles);
            proof {
                vstd::set_lib::lemma_len_subset(located.map().dom(), before.dom());
            }
        }
        assert(located.map().dom().len() <= bound);
        let mut flow: AssocList<ChunkCoord, u32> = AssocList::new();
        let n = flow_totals.len();
        let mut i: usize = 0;
        assert(flow_totals@.subrange(0, 0) =~= Seq::<(ChunkCoord, u32)>::empty());
        while i < n
            invariant
                n == flow_totals@.len(),
                i <= n,
                flow.well_formed(),
                flow.map() == positive_flows(flow_totals@.subrange(0, i as int)),
                forall|c: ChunkCoord| flow.map().contains_key(c) ==> bound + #[trigger] flow.map()[c] <= u32::MAX,
                forall|j: int| 0 <= j < flow_totals@.len() ==> bound + (#[trigger] flow_totals@[j]).1 <= u32::MAX,
            decreases n - i,
        {
            let (c, a) = flow_totals[i];
            assert(flow_totals@.subrange(0, i + 1).drop_last() =~= flow_totals@.subrange(0, i as int));
            assert(flow_totals@.subrange(0, i + 1).last() == (c, a));
            assert(bound + flow_totals@[i as int].1 <= u32::MAX);
            if a > 0 {
                flow.insert(c, a);
            }
            i = i + 1;
        }
        assert(flow_totals@.subrange(0, n as int) =~= flow_totals@);
        proof {
            assert forall|c: ChunkCoord| #[trigger] count_at(counts.map(), c) + count_at(flow.map(), c) <= u32::MAX by {
                assert(count_at(counts.map(), c) == in_chunk(located.map(), c).len());
                lemma_in_chunk_bounded(located.map(), c);
            }
        }
        self.located = located;
        self.counts = counts;
        self.flow = flow;
    }

    /// The agents (or, when `vehicle`, the vehicles) located in chunk `c`,
    /// each once.
    pub fn entities_in_chunk(&self, c: ChunkCoord, vehicle: bool) -> (r: Vec<u64>)
        requires
            self.well_formed(),
        ensures
            forall|e: u64| r@.contains(e) <==> (self.located().contains_key(e) && self.located()[e] == (c, vehicle)),
            r@.no_duplicates(),
    {
        let mut out: Vec<u64> = Vec::new();
        let n = self.located.len();
        let mut i: usize = 0;
        while i < n
            invariant
                n == self.located.entries@.len(),
                i <= n,
                self.located.well_formed(),
                out@.no_duplicates(),
                forall|e: u64| out@.contains(e) <==> (exists|j: int| 0 <= j < i && (#[trigger] self.located.entries@[j]).0 == e
                    && self.located.entries@[j].1 == (c, vehicle)),
            decreases n - i,
        {
            let entry = self.located.entry_at(i);
            let ghost before = out@;
            if entry.1.0 == c && entry.1.1 == vehicle {
                proof {
                    if before.contains(entry.0) {
                        let j = choose|j: int| 0 <= j < i && (#[trigger] self.located.entries@[j]).0 == entry.0
                            && self.located.entries@[j].1 == (c, vehicle);
                        assert(self.located.entries@[j].0.key() == self.located.entries@[i as int].0.key());
                    }
                }
                out.push(entry.0);
            }
            proof {
                assert forall|e: u64| out@.contains(e) <==> (exists|j: int| 0 <= j < i + 1 && (#[trigger] self.located.entries@[j]).0 == e
                    && self.located.entries@[j].1 == (c, vehicle)) by {
                    if out@.contains(e) && !before.contains(e) {
                        let k = choose|k: int| 0 <= k < out@.len() && out@[k] == e;
                        if k < before.len() {
                            assert(before[k] == e);
                        }
                        assert(self.located.entries@[i as int].0 == e);
                    }
                    if before.contains(e) {
                        let k = choose|k: int| 0 <= k < before.len() && before[k] == e;
                        assert(out@[k] == e);
                    }
                    if exists|j: int| 0 <= j < i + 1 && (#[trigger] self.located.entries@[j]).0 == e
                        && self.located.entries@[j].1 == (c, vehicle) {
                        let j = choose|j: int| 0 <= j < i + 1 && (#[trigger] self.located.entries@[j]).0 == e
                            && self.located.entries@[j].1 == (c, vehicle);
                        if j == i {
                            assert(out@[out@.len() - 1] == e);
                        }
                    }
                }
            }
            i = i + 1;
        }
        proof {
            assert forall|e: u64| out@.contains(e) <==> (self.located().contains_key(e) && self.located()[e] == (c, vehicle)) by {
                if self.located().contains_key(e) {
                    let j = choose|j: int| 0 <= j < self.located.entries@.len() && (#[trigger] self.located.entries@[j]).0.key() == e;
                    crate::assoc::lemma_seq_map_at(self.located.entries@, j);
                }
                if exists|j: int| 0 <= j < n && (#[trigger] self.located.entries@[j]).0 == e && self.located.entries@[j].1 == (c, vehicle) {
                    let j = choose|j: int| 0 <= j < n && (#[trigger] self.located.entries@[j]).0 == e && self.located.entries@[j].1 == (c, vehicle);
                    crate::assoc::lemma_seq_map_at(self.located.entries@, j);
                }
            }
        }
        out
    }
}

/// A pass in which nothing moved and every tracked entity is still alive
/// keeps every location.
pub proof fn lemma_quiet_pass_keeps_locations(m: Located, agents: Seq<(u64, ChunkCoord)>, vehicles: Seq<(u64, ChunkCoord)>)
    requires
        forall|e: u64| m.contains_key(e) ==> (ids_of(agents) + ids_of(vehicles)).contains(e),
    ensures
        keep_alive(apply_moves(apply_moves(m, Seq::empty(), false), Seq::empty(), true), ids_of(agents) + ids_of(vehicles)) == m,
{
    assert(keep_alive(m, ids_of(agents) + ids_of(vehicles)) =~= m);
}

/// An entity seen in a chunk during a pass is located there afterwards,
/// unless it has departed.
pub proof fn lemma_last_sighting_wins(m: Located, moves: Seq<(u64, ChunkCoord)>, vehicle: bool)
    requires
        moves.len() > 0,
    ensures
        apply_moves(m, moves, vehicle).contains_key(moves.last().0),
        apply_moves(m, moves, vehicle)[moves.last().0].0 == moves.last().1,
{
}

/// No entity id appears twice in `seen`.
pub open spec fn distinct_ids(seen: Seq<(u64, ChunkCoord)>) -> bool {
    forall|i: int, j: int| 0 <= i < j < seen.len() ==> #[trigger] seen[i].0 != #[trigger] seen[j].0
}

/// Moves leave the location of an entity they do not name as it was.
proof fn lemma_moves_elsewhere(m: Located, moves: Seq<(u64, ChunkCoord)>, vehicle: bool, e: u64)
    requires
        !ids_of(moves).contains(e),
    ensures
        apply_moves(m, moves, vehicle).contains_key(e) == m.contains_key(e),
        apply_moves(m, moves, vehicle)[e] == m[e],
    decreases moves.len(),
{
    if moves.len() > 0 {
        let p = moves.drop_last();
        assert(!ids_of(p).contains(e)) by {
            if ids_of(p).contains(e) {
                let i = choose|i: int| 0 <= i < p.len() && #[trigger] p[i].0 == e;
                assert(moves[i].0 == e);
            }
        }
        assert(moves[moves.len() - 1].0 != e);
        lemma_moves_elsewhere(m, p, vehicle, e);
    }
}

/// An entity the moves name ends up at the chunk they give it, with the
/// moves' kind, when every sighting of it gives the same chunk and it was
/// not tracked as the other kind.
proof fn lemma_moves_sighted(m: Located, moves: Seq<(u64, ChunkCoord)>, vehicle: bool, e: u64, c: ChunkCoord)
    requires
        ids_of(moves).contains(e),
        forall|i: int| 0 <= i < moves.len() && (#[trigger] moves[i]).0 == e ==> moves[i].1 == c,
        m.contains_key(e) ==> m[e].1 == vehicle,
    ensures
        apply_moves(m, moves, vehicle).contains_key(e),
        apply_moves(m, moves, vehicle)[e] == (c, vehicle),
    decreases moves.len(),
{
    let p = moves.drop_last();
    let last = moves[moves.len() - 1];
    if ids_of(p).contains(e) {
        assert forall|i: int| 0 <= i < p.len() && (#[trigger] p[i]).0 == e implies p[i].1 == c by {
            assert(moves[i] == p[i]);
        }
        lemma_moves_sighted(m, p, vehicle, e, c);
    } else {
        lemma_moves_elsewhere(m, p, vehicle, e);
        let i = choose|i: int| 0 <= i < moves.len() && #[trigger] moves[i].0 == e;
        if i < moves.len() - 1 {
            assert(p[i].0 == e);
        }
        assert(last.0 == e && last.1 == c);
    }
}

/// Locating entities from `seen` places each sighted entity at its (only)
/// sighting and leaves the others as they were.
proof fn lemma_locate_all_at(base: Located, seen: Seq<(u64, ChunkCoord)>, vehicle: bool, e: u64)
    requires
        distinct_ids(seen),
    ensures
        locate_all(base, seen, vehicle).contains_key(e) == (base.contains_key(e) || ids_of(seen).contains(e)),
        !ids_of(seen).contains(e) ==> locate_all(base, seen, vehicle)[e] == base[e],
        forall|i: int| 0 <= i < seen.len() && (#[trigger] seen[i]).0 == e ==> locate_all(base, seen, vehicle)[e] == (seen[i].1, vehicle),
    decreases seen.len(),
{
    if seen.len() > 0 {
        let p = seen.drop_last();
        assert(distinct_ids(p)) by {
            assert forall|i: int, j: int| 0 <= i < j < p.len() implies #[trigger] p[i].0 != #[trigger] p[j].0 by {
                assert(seen[i] == p[i] && seen[j] == p[j]);
            }
        }
        lemma_locate_all_at(base, p, vehicle, e);
        assert(ids_of(seen).contains(e) == (ids_of(p).contains(e) || seen.last().0 == e)) by {
            if ids_of(seen).contains(e) {
                let i = choose|i: int| 0 <= i < seen.len() && #[trigger] seen[i].0 == e;
                if i < seen.len() - 1 {
                    assert(p[i].0 == e);
                }
            }
            if ids_of(p).contains(e) {
                let i = choose|i: int| 0 <= i < p.len() && #[trigger] p[i].0 == e;
                assert(seen[i].0 == e);
            }
        }
        assert forall|i: int| 0 <= i < seen.len() && (#[trigger] seen[i]).0 == e implies
            locate_all(base, seen, vehicle)[e] == (seen[i].1, vehicle) by {
            if i < seen.len() - 1 {
                assert(seen[i] == p[i]);
                assert(seen[i].0 != seen[seen.len() - 1].0);
            }
        }
    }
}

/// The entities of `seen` that stand in chunk `c`.
pub open spec fn ids_in(seen: Seq<(u64, ChunkCoord)>, c: ChunkCoord) -> Set<u64> {
    Set::new(|e: u64| exists|i: int| 0 <= i < seen.len() && #[trigger] seen[i] == (e, c))
}

/// Where a sighting list without repeated ids puts entity `e`: its
/// sighting's chunk is `c` exactly when `(e, c)` is among the sightings.
proof fn lemma_sighting_chunk(seen: Seq<(u64, ChunkCoord)>, i: int, c: ChunkCoord)
    requires
        distinct_ids(seen),
        0 <= i < seen.len(),
    ensures
        (seen[i].1 == c) == ids_in(seen, c).contains(seen[i].0),
{
    let e = seen[i].0;
    if ids_in(seen, c).contains(e) {
        let j = choose|j: int| 0 <= j < seen.len() && #[trigger] seen[j] == (e, c);
        if j != i {
            if j < i {
                assert(seen[j].0 != seen[i].0);
            } else {
                assert(seen[i].0 != seen[j].0);
            }
        }
    }
    if seen[i].1 == c {
        assert(seen[i] == (e, c));
    }
}

/// A first pass groups the live agents and vehicles by their current
/// chunk: the entities it locates in chunk `c` are exactly the agents and
/// the vehicles standing in `c`.
pub proof fn lemma_rebuild_groups_by_chunk(all_agents: Seq<(u64, ChunkCoord)>, all_vehicles: Seq<(u64, ChunkCoord)>, c: ChunkCoord)
    requires
        distinct_ids(all_agents),
        distinct_ids(all_vehicles),
        forall|e: u64| !(ids_of(all_agents).contains(e) && ids_of(all_vehicles).contains(e)),
    ensures
        in_chunk(locate_all(locate_all(Map::empty(), all_agents, false), all_vehicles, true), c)
            == ids_in(all_agents, c) + ids_in(all_vehicles, c),
{
    let r0 = locate_all(Map::<u64, (ChunkCoord, bool)>::empty(), all_agents, false);
    let r = locate_all(r0, all_vehicles, true);
    assert forall|e: u64| #[trigger] in_chunk(r, c).contains(e) == (ids_in(all_agents, c) + ids_in(all_vehicles, c)).contains(e) by {
        lemma_locate_all_at(Map::empty(), all_agents, false, e);
        lemma_locate_all_at(r0, all_vehicles, true, e);
        if ids_in(all_agents, c).contains(e) {
            let j = choose|j: int| 0 <= j < all_agents.len() && #[trigger] all_agents[j] == (e, c);
            assert(all_agents[j].0 == e);
        }
        if ids_in(all_vehicles, c).contains(e) {
            let j = choose|j: int| 0 <= j < all_vehicles.len() && #[trigger] all_vehicles[j] == (e, c);
            assert(all_vehicles[j].0 == e);
        }
        if ids_of(all_vehicles).contains(e) {
            let i = choose|i: int| 0 <= i < all_vehicles.len() && #[trigger] all_vehicles[i].0 == e;
            lemma_sighting_chunk(all_vehicles, i, c);
            assert(!ids_of(all_agents).contains(e));
        } else if ids_of(all_agents).contains(e) {
            let i = choose|i: int| 0 <= i < all_agents.len() && #[trigger] all_agents[i].0 == e;
            lemma_sighting_chunk(all_agents, i, c);
        }
    }
    assert(in_chunk(r, c) =~= ids_in(all_agents, c) + ids_in(all_vehicles, c));
}

impl ChunkPopulationTracker {
    /// After a pass that leaves the locations of a first pass over the live
    /// agents and vehicles (every first pass, and every later one under the
    /// conditions of `lemma_incremental_matches_rebuild`), a chunk's
    /// population is the number of live agents and vehicles standing in it
    /// plus its positive flow aggregate.
    pub proof fn lemma_population_after_pass(
        self,
        all_agents: Seq<(u64, ChunkCoord)>,
        all_vehicles: Seq<(u64, ChunkCoord)>,
        flow_totals: Seq<(ChunkCoord, u32)>,
        c: ChunkCoord,
    )
        requires
            distinct_ids(all_agents),
            distinct_ids(all_vehicles),
            forall|e: u64| !(ids_of(all_agents).contains(e) && ids_of(all_vehicles).contains(e)),
            self.located() == locate_all(locate_all(Map::empty(), all_agents, false), all_vehicles, true),
            self.flows() == positive_flows(flow_totals),
        ensures
            self.population_of(c) == (ids_in(all_agents, c) + ids_in(all_vehicles, c)).len()
                + count_at(positive_flows(flow_totals), c),
    {
        lemma_rebuild_groups_by_chunk(all_agents, all_vehicles, c);
    }
}

/// The incremental pass agrees with a rebuild from scratch: when the
/// tracked locations hold every live entity that did not move, at its
/// current chunk and with its kind, and the moves are sightings of live
/// entities where they now are, a later pass (see `track`) leaves exactly
/// the locations that a first pass over the live entities would.
pub proof fn lemma_incremental_matches_rebuild(
    m: Located,
    moved_agents: Seq<(u64, ChunkCoord)>,
    moved_vehicles: Seq<(u64, ChunkCoord)>,
    all_agents: Seq<(u64, ChunkCoord)>,
    all_vehicles: Seq<(u64, ChunkCoord)>,
)
    requires
        distinct_ids(all_agents),
        distinct_ids(all_vehicles),
        forall|e: u64| !(ids_of(all_agents).contains(e) && ids_of(all_vehicles).contains(e)),
        forall|i: int| 0 <= i < moved_agents.len() ==> all_agents.contains(#[trigger] moved_agents[i]),
        forall|i: int| 0 <= i < moved_vehicles.len() ==> all_vehicles.contains(#[trigger] moved_vehicles[i]),
        forall|i: int| 0 <= i < all_agents.len() && !ids_of(moved_agents).contains((#[trigger] all_agents[i]).0) ==>
            m.contains_key(all_agents[i].0) && m[all_agents[i].0] == (all_agents[i].1, false),
        forall|i: int| 0 <= i < all_vehicles.len() && !ids_of(moved_vehicles).contains((#[trigger] all_vehicles[i]).0) ==>
            m.contains_key(all_vehicles[i].0) && m[all_vehicles[i].0] == (all_vehicles[i].1, true),
        forall|e: u64| m.contains_key(e) && #[trigger] ids_of(all_agents).contains(e) ==> !m[e].1,
        forall|e: u64| m.contains_key(e) && #[trigger] ids_of(all_vehicles).contains(e) ==> m[e].1,
    ensures
        keep_alive(apply_moves(apply_moves(m, moved_agents, false), moved_vehicles, true), ids_of(all_agents) + ids_of(all_vehicles))
            == locate_all(locate_all(Map::empty(), all_agents, false), all_vehicles, true),
{
    let m1 = apply_moves(m, moved_agents, false);
    let m2 = apply_moves(m1, moved_vehicles, true);
    let alive = ids_of(all_agents) + ids_of(all_vehicles);
    let lhs = keep_alive(m2, alive);
    let r0 = locate_all(Map::<u64, (ChunkCoord, bool)>::empty(), all_agents, false);
    let rhs = locate_all(r0, all_vehicles, true);
    assert forall|e: u64| #[trigger] lhs.contains_key(e) == rhs.contains_key(e) && (lhs.contains_key(e) ==> lhs[e] == rhs[e]) by {
        lemma_locate_all_at(Map::empty(), all_agents, false, e);
        lemma_locate_all_at(r0, all_vehicles, true, e);
        if ids_of(all_agents).contains(e) {
            let i = choose|i: int| 0 <= i < all_agents.len() && #[trigger] all_agents[i].0 == e;
            let c = all_agents[i].1;
            assert(!ids_of(moved_vehicles).contains(e)) by {
                if ids_of(moved_vehicles).contains(e) {
                    let k = choose|k: int| 0 <= k < moved_vehicles.len() && #[trigger] moved_vehicles[k].0 == e;
                    assert(all_vehicles.contains(moved_vehicles[k]));
                    let q = choose|q: int| 0 <= q < all_vehicles.len() && all_vehicles[q] == moved_vehicles[k];
                    assert(all_vehicles[q].0 == e);
                }
            }
            lemma_moves_elsewhere(m1, moved_vehicles, true, e);
            if ids_of(moved_agents).contains(e) {
                assert forall|k: int| 0 <= k < moved_agents.len() && (#[trigger] moved_agents[k]).0 == e implies moved_agents[k].1 == c by {
                    assert(all_agents.contains(moved_agents[k]));
                    let q = choose|q: int| 0 <= q < all_agents.len() && all_agents[q] == moved_agents[k];
                    if q != i {
                        if q < i {
                            assert(all_agents[q].0 != all_agents[i].0);
                        } else {
                            assert(all_agents[i].0 != all_agents[q].0);
                        }
                    }
                }
                lemma_moves_sighted(m, moved_agents, false, e, c);
            } else {
                lemma_moves_elsewhere(m, moved_agents, false, e);
            }
            assert(!ids_of(all_vehicles).contains(e));
        } else if ids_of(all_vehicles).contains(e) {
            let i = choose|i: int| 0 <= i < all_vehicles.len() && #[trigger] all_vehicles[i].0 == e;
            let c = all_vehicles[i].1;
            assert(!ids_of(moved_agents).contains(e)) by {
                if ids_of(moved_agents).contains(e) {
                    let k = choose|k: int| 0 <= k < moved_agents.len() && #[trigger] moved_agents[k].0 == e;
                    assert(all_agents.contains(moved_agents[k]));
                    let q = choose|q: int| 0 <= q < all_agents.len() && all_agents[q] == moved_agents[k];
                    assert(all_agents[q].0 == e);
                }
            }
            lemma_moves_elsewhere(m, moved_agents, false, e);
            if ids_of(moved_vehicles).contains(e) {
                assert forall|k: int| 0 <= k < moved_vehicles.len() && (#[trigger] moved_vehicles[k]).0 == e implies moved_vehicles[k].1 == c by {
                    assert(all_vehicles.contains(moved_vehicles[k]));
                    let q = choose|q: int| 0 <= q < all_vehicles.len() && all_vehicles[q] == moved_vehicles[k];
                    if q != i {
                        if q < i {
                            assert(all_vehicles[q].0 != all_vehicles[i].0);
                        } else {
                            assert(all_vehicles[i].0 != all_vehicles[q].0);
                        }
                    }
                }
                lemma_moves_sighted(m1, moved_vehicles, true, e, c);
            } else {
                lemma_moves_elsewhere(m1, moved_vehicles, true, e);
            }
        } else {
            assert(!alive.contains(e));
        }
    }
    assert(lhs =~= rhs);
}

} // verus!

//! Per-chunk mobility deltas: which changed agents and vehicles each chunk
//! publishes, and which ones left it since the previous tick.
use vstd::prelude::*;

use crate::assoc::{AssocList, StableKey, has_key, keys_unique, lemma_seq_map_at, seq_map};
use crate::ids::{AgentId, ChunkCoord, VehicleId};

verus! {

/// An entity whose state changed this tick, with the chunk it is in now.
#[derive(Debug, Clone)]
pub struct ChangedEntity<I, R> {
    pub id: I,
    pub chunk: ChunkCoord,
    pub record: R,
}

/// What one chunk publishes for a tick.
#[derive(Debug, Clone)]
pub struct MobilityChunkDelta<A, V> {
    pub chunk: ChunkCoord,
    pub changed_agents: Vec<A>,
    pub changed_vehicles: Vec<V>,
    pub left_agents: Vec<AgentId>,
    pub left_vehicles: Vec<VehicleId>,
}

/// The chunk each of the first `n` changed entities is in (the last
/// occurrence of an id wins).
pub open spec fn current_chunks<I: StableKey, R>(s: Seq<ChangedEntity<I, R>>, n: int) -> Map<I::Key, ChunkCoord>
    decreases n,
{
    if n <= 0 {
        Map::empty()
    } else {
        current_chunks(s, n - 1).insert(s[n - 1].id.key(), s[n - 1].chunk)
    }
}

/// The records, in order, of the first `n` changed entities that are in chunk `c`.
pub open spec fn changed_records<I, R>(s: Seq<ChangedEntity<I, R>>, c: ChunkCoord, n: int) -> Seq<R>
    decreases n,
{
    if n <= 0 {
        Seq::empty()
    } else if s[n - 1].chunk == c {
        changed_records(s, c, n - 1).push(s[n - 1].record)
    } else {
        changed_records(s, c, n - 1)
    }
}

/// The entities that were in chunk `c` at the previous tick and are now elsewhere.
pub open spec fn left_keys<K>(prev: Map<K, ChunkCoord>, cur: Map<K, ChunkCoord>, c: ChunkCoord) -> Set<K> {
    Set::new(|k: K| cur.contains_key(k) && prev.contains_key(k) && prev[k] == c && cur[k] != c)
}

/// The keys of the values in `v`.
pub open spec fn key_set<I: StableKey>(v: Seq<I>) -> Set<I::Key> {
    Set::new(|k: I::Key| exists|i: int| 0 <= i < v.len() && (#[trigger] v[i]).key() == k)
}

/// No key occurs twice in `v`.
pub open spec fn keys_distinct<I: StableKey>(v: Seq<I>) -> bool {
    forall|i: int, j: int| 0 <= i < v.len() && 0 <= j < v.len() && i != j ==> (#[trigger] v[i]).key() != (#[trigger] v[j]).key()
}

/// The chunk every changed entity is in now, by id.
fn current_chunk_table<I: StableKey, R>(s: &Vec<ChangedEntity<I, R>>) -> (r: AssocList<I, ChunkCoord>)
    ensures
        r.well_formed(),
        r.map() =~= current_chunks(s@, s@.len() as int),
{
    let mut out: AssocList<I, ChunkCoord> = AssocList::new();
    let n = s.len();
    let mut i: usize = 0;
    while i < n
        invariant
            n == s@.len(),
            i <= n,
            out.well_formed(),
            out.map() =~= current_chunks(s@, i as int),
        decreases n - i,
    {
        let e = &s[i];
        out.insert(e.id.copy_key(), e.chunk);
        i = i + 1;
    }
    out
}

/// The entities of `cur` that left their previous chunk, grouped by that chunk.
fn left_by_chunk<I: StableKey>(cur: &AssocList<I, ChunkCoord>, prev: &AssocList<I, ChunkCoord>) -> (r: AssocList<ChunkCoord, Vec<I>>)
    requires
        cur.well_formed(),
        prev.well_formed(),
    ensures
        r.well_formed(),
        forall|c: ChunkCoord| #[trigger] r.map().contains_key(c) <==> !left_keys(prev.map(), cur.map(), c).is_empty(),
        forall|c: ChunkCoord| #[trigger] r.map().contains_key(c) ==> key_set(r.map()[c]@) =~= left_keys(prev.map(), cur.map(), c)
            && keys_distinct(r.map()[c]@),
{
    let ghost cs = cur.entries@;
    let ghost pm = prev.map();
    let ghost cm = cur.map();
    let mut out: AssocList<ChunkCoord, Vec<I>> = AssocList::new();
    let n = cur.len();
    let mut j: usize = 0;
    while j < n
        invariant
            n == cs.len(),
            cs == cur.entries@,
            keys_unique(cs),
            cm == cur.map(),
            pm == prev.map(),
            prev.well_formed(),
            j <= n,
            out.well_formed(),
            forall|c: ChunkCoord| #[trigger] out.map().contains_key(c) <==> left_upto(cs, pm, j as int, c),
            forall|c: ChunkCoord| #[trigger] out.map().contains_key(c) ==>
                key_set(out.map()[c]@) =~= left_key_set(cs, pm, j as int, c)
                && keys_distinct(out.map()[c]@),
        decreases n - j,
    {
        let entry = cur.entry_at(j);
        let chunk = entry.1;
        match prev.get(&entry.0) {
            Some(p) => {
                if *p != chunk {
                    let p = *p;
                    let id = entry.0.copy_key();
                    let ghost before = out.map();
                    let mut list = match out.remove(&p) {
                        Some(l) => l,
                        None => Vec::new(),
                    };
                    let ghost old_list = list@;
                    list.push(id);
                    out.insert(p, list);
                    proof {
                        assert(left_at(cs, pm, j as int, p));
                        assert forall|c: ChunkCoord| #[trigger] out.map().contains_key(c) <==> left_upto(cs, pm, j + 1, c) by {
                            if c != p && out.map().contains_key(c) {
                                assert(before.contains_key(c));
                            }
                            if c == p {
                                assert(left_at(cs, pm, j as int, c));
                            }
                        }
                        assert forall|c: ChunkCoord| #[trigger] out.map().contains_key(c) implies
                            key_set(out.map()[c]@) =~= left_key_set(cs, pm, j + 1, c)
                            && keys_distinct(out.map()[c]@) by {
                            if c == p {
                                lemma_left_list_push(cs, pm, j as int, c, old_list, id, before.contains_key(c));
                                if before.contains_key(c) {
                                    assert(old_list == before[c]@);
                                } else {
                                    assert(old_list.len() == 0);
                                    assert forall|q: int| 0 <= q < j implies !left_at(cs, pm, q, c) by {}
                                }
                            } else {
                                assert(before.contains_key(c));
                                assert(out.map()[c] == before[c]);
                                assert forall|k: I::Key| #[trigger] left_key_set(cs, pm, j + 1, c).contains(k)
                                    <==> left_key_set(cs, pm, j as int, c).contains(k) by {
                                    if left_key_set(cs, pm, j + 1, c).contains(k) {
                                        let q = choose|q: int| 0 <= q < j + 1 && #[trigger] left_at(cs, pm, q, c) && cs[q].0.key() == k;
                                        assert(q != j);
                                    }
                                }
                                assert(left_key_set(cs, pm, j + 1, c)
                                    =~= left_key_set(cs, pm, j as int, c));
                            }
                        }
                    }
                } else {
                    proof { lemma_left_step_none_all::<I, ()>(cs, pm, j as int, out.map()); }
                }
            },
            None => {
                proof { lemma_left_step_none_all::<I, ()>(cs, pm, j as int, out.map()); }
            },
        }
        j = j + 1;
    }
    proof {
        assert forall|c: ChunkCoord| #[trigger] out.map().contains_key(c) <==> !left_keys(pm, cm, c).is_empty() by {
            if out.map().contains_key(c) {
                let q = choose|q: int| 0 <= q < n && #[trigger] left_at(cs, pm, q, c);
                lemma_seq_map_at(cs, q);
                assert(left_keys(pm, cm, c).contains(cs[q].0.key()));
            }
            if !left_keys(pm, cm, c).is_empty() {
                let k = left_keys(pm, cm, c).choose();
                assert(left_keys(pm, cm, c).contains(k));
                assert(has_key(cs, k));
                let q = choose|q: int| 0 <= q < cs.len() && (#[trigger] cs[q]).0.key() == k;
                lemma_seq_map_at(cs, q);
                assert(left_at(cs, pm, q, c));
            }
        }
        assert forall|c: ChunkCoord| #[trigger] out.map().contains_key(c) implies
            key_set(out.map()[c]@) =~= left_keys(pm, cm, c) && keys_distinct(out.map()[c]@) by {
            assert forall|k: I::Key| #[trigger] left_key_set(cs, pm, n as int, c).contains(k)
                <==> left_keys(pm, cm, c).contains(k) by {
                if left_key_set(cs, pm, n as int, c).contains(k) {
                    let q = choose|q: int| 0 <= q < n && #[trigger] left_at(cs, pm, q, c) && cs[q].0.key() == k;
                    lemma_seq_map_at(cs, q);
                }
                if left_keys(pm, cm, c).contains(k) {
                    assert(has_key(cs, k));
                    let q = choose|q: int| 0 <= q < cs.len() && (#[trigger] cs[q]).0.key() == k;
                    lemma_seq_map_at(cs, q);
                    assert(left_at(cs, pm, q, c));
                }
            }
        }
    }
    out
}

/// Some entry among the first `j` of `cs` moved out of chunk `c`.
pub open spec fn left_upto<I: StableKey>(cs: Seq<(I, ChunkCoord)>, pm: Map<I::Key, ChunkCoord>, j: int, c: ChunkCoord) -> bool {
    exists|q: int| 0 <= q < j && #[trigger] left_at(cs, pm, q, c)
}

/// The keys of the entries among the first `j` of `cs` that moved out of chunk `c`.
pub open spec fn left_key_set<I: StableKey>(cs: Seq<(I, ChunkCoord)>, pm: Map<I::Key, ChunkCoord>, j: int, c: ChunkCoord) -> Set<I::Key> {
    Set::new(|k: I::Key| exists|q: int| 0 <= q < j && #[trigger] left_at(cs, pm, q, c) && cs[q].0.key() == k)
}

/// Entry `q` of `cs` moved out of chunk `c`.
pub open spec fn left_at<I: StableKey>(cs: Seq<(I, ChunkCoord)>, pm: Map<I::Key, ChunkCoord>, q: int, c: ChunkCoord) -> bool {
    pm.contains_key(cs[q].0.key()) && pm[cs[q].0.key()] == c && cs[q].1 != c
}

proof fn lemma_left_step_none<I: StableKey>(cs: Seq<(I, ChunkCoord)>, pm: Map<I::Key, ChunkCoord>, j: int, c: ChunkCoord, k: I::Key)
    requires
        0 <= j < cs.len(),
        !(pm.contains_key(cs[j].0.key()) && pm[cs[j].0.key()] != cs[j].1),
    ensures
        left_upto(cs, pm, j + 1, c) <==> left_upto(cs, pm, j, c),
        left_key_set(cs, pm, j + 1, c).contains(k) <==> left_key_set(cs, pm, j, c).contains(k),
{
    if left_upto(cs, pm, j + 1, c) {
        let q = choose|q: int| 0 <= q < j + 1 && #[trigger] left_at(cs, pm, q, c);
        assert(q != j);
    }
    if left_key_set(cs, pm, j + 1, c).contains(k) {
        let q = choose|q: int| 0 <= q < j + 1 && #[trigger] left_at(cs, pm, q, c) && cs[q].0.key() == k;
        assert(q != j);
    }
}

proof fn lemma_left_step_none_all<I: StableKey, V>(cs: Seq<(I, ChunkCoord)>, pm: Map<I::Key, ChunkCoord>, j: int, m: Map<ChunkCoord, Vec<I>>)
    requires
        0 <= j < cs.len(),
        !(pm.contains_key(cs[j].0.key()) && pm[cs[j].0.key()] != cs[j].1),
        forall|c: ChunkCoord| #[trigger] m.contains_key(c) <==> left_upto(cs, pm, j, c),
        forall|c: ChunkCoord| #[trigger] m.contains_key(c) ==>
            key_set(m[c]@) =~= left_key_set(cs, pm, j, c)
            && keys_distinct(m[c]@),
    ensures
        forall|c: ChunkCoord| #[trigger] m.contains_key(c) <==> left_upto(cs, pm, j + 1, c),
        forall|c: ChunkCoord| #[trigger] m.contains_key(c) ==>
            key_set(m[c]@) =~= left_key_set(cs, pm, j + 1, c)
            && keys_distinct(m[c]@),
{
    assert forall|c: ChunkCoord| #[trigger] m.contains_key(c) <==> left_upto(cs, pm, j + 1, c) by {
        lemma_left_step_none(cs, pm, j, c, arbitrary());
    }
    assert forall|c: ChunkCoord| #[trigger] m.contains_key(c) implies
        key_set(m[c]@) =~= left_key_set(cs, pm, j + 1, c)
        && keys_distinct(m[c]@) by {
        assert forall|k: I::Key| #[trigger] left_key_set(cs, pm, j + 1, c).contains(k)
            <==> left_key_set(cs, pm, j, c).contains(k) by {
            lemma_left_step_none(cs, pm, j, c, k);
        }
        assert(left_key_set(cs, pm, j + 1, c)
            =~= left_key_set(cs, pm, j, c));
    }
}

proof fn lemma_left_list_push<I: StableKey>(
    cs: Seq<(I, ChunkCoord)>,
    pm: Map<I::Key, ChunkCoord>,
    j: int,
    c: ChunkCoord,
    old_list: Seq<I>,
    id: I,
    existed: bool,
)
    requires
        keys_unique(cs),
        0 <= j < cs.len(),
        left_at(cs, pm, j, c),
        id.key() == cs[j].0.key(),
        existed ==> key_set(old_list) =~= left_key_set(cs, pm, j as int, c)
            && keys_distinct(old_list),
        !existed ==> old_list.len() == 0 && (forall|q: int| 0 <= q < j ==> !left_at(cs, pm, q, c)),
    ensures
        key_set(old_list.push(id)) =~= left_key_set(cs, pm, j + 1, c),
        keys_distinct(old_list.push(id)),
{
    let nl = old_list.push(id);
    assert forall|k: I::Key| #[trigger] key_set(nl).contains(k) <==> left_key_set(cs, pm, j + 1, c).contains(k) by {
        if key_set(nl).contains(k) {
            let i = choose|i: int| 0 <= i < nl.len() && (#[trigger] nl[i]).key() == k;
            if i < old_list.len() {
                assert(nl[i] == old_list[i]);
                assert(key_set(old_list).contains(k));
            } else {
                assert(cs[j].0.key() == k);
            }
        }
        if left_key_set(cs, pm, j + 1, c).contains(k) {
            let q = choose|q: int| 0 <= q < j + 1 && #[trigger] left_at(cs, pm, q, c) && cs[q].0.key() == k;
            if q == j {
                assert(nl[old_list.len() as int] == id);
            } else {
                assert(existed);
                assert(key_set(old_list).contains(k));
                let i = choose|i: int| 0 <= i < old_list.len() && (#[trigger] old_list[i]).key() == k;
                assert(nl[i] == old_list[i]);
            }
        }
    }
    assert forall|a: int, b: int| 0 <= a < nl.len() && 0 <= b < nl.len() && a != b implies (#[trigger] nl[a]).key() != (#[trigger] nl[b]).key() by {
        if a < old_list.len() && b < old_list.len() {
            assert(nl[a] == old_list[a] && nl[b] == old_list[b]);
        } else {
            let o = if a < old_list.len() { a } else { b };
            if o < old_list.len() {
                assert(nl[o] == old_list[o]);
                assert(key_set(old_list).contains(old_list[o].key()));
                let q = choose|q: int| 0 <= q < j && #[trigger] left_at(cs, pm, q, c) && cs[q].0.key() == old_list[o].key();
                assert(cs[q].0.key() != cs[j].0.key());
            }
        }
    }
}

/// Records that each entity of `cur` is now in its current chunk.
fn update_previous<I: StableKey>(prev: &mut AssocList<I, ChunkCoord>, cur: &AssocList<I, ChunkCoord>)
    requires
        old(prev).well_formed(),
        cur.well_formed(),
    ensures
        final(prev).well_formed(),
        final(prev).map() =~= old(prev).map().union_prefer_right(cur.map()),
{
    let ghost cs = cur.entries@;
    let n = cur.len();
    let mut j: usize = 0;
    assert(seq_map(cs.subrange(0, 0)) =~= Map::<I::Key, ChunkCoord>::empty());
    while j < n
        invariant
            n == cs.len(),
            cs == cur.entries@,
            keys_unique(cs),
            j <= n,
            prev.well_formed(),
            prev.map() =~= old(prev).map().union_prefer_right(seq_map(cs.subrange(0, j as int))),
        decreases n - j,
    {
        let entry = cur.entry_at(j);
        let ghost pre = cs.subrange(0, j as int);
        proof {
            assert(keys_unique(pre)) by {
                assert forall|a: int, b: int| 0 <= a < pre.len() && 0 <= b < pre.len() && a != b
                    implies (#[trigger] pre[a]).0.key() != (#[trigger] pre[b]).0.key() by {
                    assert(pre[a] == cs[a] && pre[b] == cs[b]);
                }
            }
            assert(!has_key(pre, cs[j as int].0.key())) by {
                if has_key(pre, cs[j as int].0.key()) {
                    let a = choose|a: int| 0 <= a < pre.len() && (#[trigger] pre[a]).0.key() == cs[j as int].0.key();
                    assert(pre[a] == cs[a]);
                }
            }
            crate::assoc::lemma_seq_map_push(pre, cs[j as int].0, cs[j as int].1);
            assert(pre.push(cs[j as int]) =~= cs.subrange(0, j + 1));
        }
        prev.insert(entry.0.copy_key(), entry.1);
        j = j + 1;
    }
    assert(cs.subrange(0, n as int) =~= cs);
}

/// The records of `s` grouped by their current chunk, each group in input order.
fn bucket_records<I, R>(s: Vec<ChangedEntity<I, R>>) -> (r: AssocList<ChunkCoord, Vec<R>>)
    ensures
        r.well_formed(),
        forall|c: ChunkCoord| #[trigger] r.map().contains_key(c) <==> changed_records(s@, c, s@.len() as int).len() > 0,
        forall|c: ChunkCoord| #[trigger] r.map().contains_key(c) ==> r.map()[c]@ == changed_records(s@, c, s@.len() as int),
{
    let ghost orig = s@;
    let n = s.len();
    let mut rest = s;
    let mut out: AssocList<ChunkCoord, Vec<R>> = AssocList::new();
    let mut i: usize = 0;
    while i < n
        invariant
            n == orig.len(),
            i <= n,
            rest@ == orig.subrange(i as int, n as int),
            out.well_formed(),
            forall|c: ChunkCoord| #[trigger] out.map().contains_key(c) <==> changed_records(orig, c, i as int).len() > 0,
            forall|c: ChunkCoord| #[trigger] out.map().contains_key(c) ==> out.map()[c]@ == changed_records(orig, c, i as int),
        decreases n - i,
    {
        assert(rest@[0] == orig[i as int]);
        let e = rest.remove(0);
        assert(rest@ =~= orig.subrange(i + 1, n as int));
        let c = e.chunk;
        let ghost before = out.map();
        let mut list = match out.remove(&c) {
            Some(l) => l,
            None => Vec::new(),
        };
        proof {
            if !before.contains_key(c) {
                assert(changed_records(orig, c, i as int).len() == 0);
            }
            assert(list@ =~= changed_records(orig, c, i as int));
        }
        list.push(e.record);
        out.insert(c, list);
        proof {
            assert forall|d: ChunkCoord| #[trigger] out.map().contains_key(d) <==> changed_records(orig, d, i + 1).len() > 0 by {
                if d != c {
                    assert(changed_records(orig, d, i + 1) == changed_records(orig, d, i as int));
                }
            }
            assert forall|d: ChunkCoord| #[trigger] out.map().contains_key(d) implies out.map()[d]@ == changed_records(orig, d, i + 1) by {
                if d != c {
                    assert(changed_records(orig, d, i + 1) == changed_records(orig, d, i as int));
                    assert(before.contains_key(d));
                }
            }
        }
        i = i + 1;
    }
    out
}

/// Takes the value stored for `c` out of `t`, or an empty list.
fn take_list<T>(t: &mut AssocList<ChunkCoord, Vec<T>>, c: ChunkCoord) -> (r: Vec<T>)
    requires
        old(t).well_formed(),
    ensures
        final(t).well_formed(),
        final(t).map() =~= old(t).map().remove(c),
        r@ == (if old(t).map().contains_key(c) { old(t).map()[c]@ } else { Seq::empty() }),
{
    match t.remove(&c) {
        Some(l) => l,
        None => Vec::new(),
    }
}

/// Adds the keys of `t` to the set `acc`.
fn add_keys<T>(acc: &mut AssocList<ChunkCoord, ()>, t: &AssocList<ChunkCoord, T>)
    requires
        old(acc).well_formed(),
    ensures
        final(acc).well_formed(),
        final(acc).map().dom() =~= old(acc).map().dom() + t.map().dom(),
{
    let ghost ts = t.entries@;
    let n = t.len();
    let mut i: usize = 0;
    while i < n
        invariant
            n == ts.len(),
            ts == t.entries@,
            i <= n,
            acc.well_formed(),
            forall|c: ChunkCoord| #[trigger] acc.map().dom().contains(c) <==>
                (old(acc).map().dom().contains(c) || exists|j: int| 0 <= j < i && (#[trigger] ts[j]).0 == c),
        decreases n - i,
    {
        let c = t.entry_at(i).0;
        acc.insert(c, ());
        proof {
            assert forall|d: ChunkCoord| #[trigger] acc.map().dom().contains(d) <==>
                (old(acc).map().dom().contains(d) || exists|j: int| 0 <= j < i + 1 && (#[trigger] ts[j]).0 == d) by {
                if d == c {
                    assert(ts[i as int].0 == d);
                }
            }
        }
        i = i + 1;
    }
    proof {
        assert forall|c: ChunkCoord| (exists|j: int| 0 <= j < n && (#[trigger] ts[j]).0 == c) <==> #[trigger] t.map().dom().contains(c) by {
            if exists|j: int| 0 <= j < n && (#[trigger] ts[j]).0 == c {
                let j = choose|j: int| 0 <= j < n && (#[trigger] ts[j]).0 == c;
                assert(has_key(ts, c));
            }
            if t.map().dom().contains(c) {
                assert(has_key(ts, c));
                let j = choose|j: int| 0 <= j < ts.len() && (#[trigger] ts[j]).0.key() == c;
            }
        }
    }
}

/// Some of the first `i` entries of `keys` has key `c`.
pub open spec fn seen_upto<T>(keys: Seq<(ChunkCoord, T)>, i: int, c: ChunkCoord) -> bool {
    exists|j: int| 0 <= j < i && (#[trigger] keys[j]).0 == c
}

/// Builds the per-chunk deltas of a tick and records the new chunk of every
/// changed entity. A chunk gets a delta when some changed agent or vehicle is
/// in it now, or some changed agent or vehicle was in it at the previous tick
/// and is elsewhere now; the delta lists the records of the changed entities
/// in the chunk, in input order, and the ids of those that left it.
pub fn assemble_chunk_deltas<A, V>(
    agents: Vec<ChangedEntity<AgentId, A>>,
    vehicles: Vec<ChangedEntity<VehicleId, V>>,
    previous_agents: &mut AssocList<AgentId, ChunkCoord>,
    previous_vehicles: &mut AssocList<VehicleId, ChunkCoord>,
) -> (r: AssocList<ChunkCoord, MobilityChunkDelta<A, V>>)
    requires
        old(previous_agents).well_formed(),
        old(previous_vehicles).well_formed(),
    ensures
        r.well_formed(),
        final(previous_agents).well_formed(),
        final(previous_vehicles).well_formed(),
        final(previous_agents).map() =~= old(previous_agents).map().union_prefer_right(
            current_chunks(agents@, agents@.len() as int)),
        final(previous_vehicles).map() =~= old(previous_vehicles).map().union_prefer_right(
            current_chunks(vehicles@, vehicles@.len() as int)),
        forall|c: ChunkCoord| #[trigger] r.map().contains_key(c) <==> (
            changed_records(agents@, c, agents@.len() as int).len() > 0
            || changed_records(vehicles@, c, vehicles@.len() as int).len() > 0
            || !left_keys(old(previous_agents).map(), current_chunks(agents@, agents@.len() as int), c).is_empty()
            || !left_keys(old(previous_vehicles).map(), current_chunks(vehicles@, vehicles@.len() as int), c).is_empty()),
        forall|c: ChunkCoord| #[trigger] r.map().contains_key(c) ==> {
            let d = r.map()[c];
            &&& d.chunk == c
            &&& d.changed_agents@ == changed_records(agents@, c, agents@.len() as int)
            &&& d.changed_vehicles@ == changed_records(vehicles@, c, vehicles@.len() as int)
            &&& key_set(d.left_agents@) =~= left_keys(old(previous_agents).map(), current_chunks(agents@, agents@.len() as int), c)
            &&& keys_distinct(d.left_agents@)
            &&& key_set(d.left_vehicles@) =~= left_keys(old(previous_vehicles).map(), current_chunks(vehicles@, vehicles@.len() as int), c)
            &&& keys_distinct(d.left_vehicles@)
        },
{
    let cur_agents = current_chunk_table(&agents);
    let cur_vehicles = current_chunk_table(&vehicles);
    let mut left_agents = left_by_chunk(&cur_agents, previous_agents);
    let mut left_vehicles = left_by_chunk(&cur_vehicles, previous_vehicles);
    update_previous(previous_agents, &cur_agents);
    update_previous(previous_vehicles, &cur_vehicles);
    let ghost av = agents@;
    let ghost vv = vehicles@;
    let mut changed_agents = bucket_records(agents);
    let mut changed_vehicles = bucket_records(vehicles);

    let mut all: AssocList<ChunkCoord, ()> = AssocList::new();
    add_keys(&mut all, &changed_agents);
    add_keys(&mut all, &changed_vehicles);
    add_keys(&mut all, &left_agents);
    add_keys(&mut all, &left_vehicles);

    let ghost ca0 = changed_agents.map();
    let ghost cv0 = changed_vehicles.map();
    let ghost la0 = left_agents.map();
    let ghost lv0 = left_vehicles.map();
    let ghost keys = all.entries@;
    let mut out: AssocList<ChunkCoord, MobilityChunkDelta<A, V>> = AssocList::new();
    let n = all.len();
    let mut i: usize = 0;
    while i < n
        invariant
            n == keys.len(),
            keys == all.entries@,
            keys_unique(keys),
            i <= n,
            out.well_formed(),
            changed_agents.well_formed(),
            changed_vehicles.well_formed(),
            left_agents.well_formed(),
            left_vehicles.well_formed(),
            forall|c: ChunkCoord| #[trigger] all.map().dom().contains(c) <==>
                (ca0.contains_key(c) || cv0.contains_key(c) || la0.contains_key(c) || lv0.contains_key(c)),
            forall|c: ChunkCoord| #[trigger] out.map().contains_key(c) <==> seen_upto(keys, i as int, c),
            forall|c: ChunkCoord| #[trigger] seen_upto(keys, i as int, c) ==> {
                &&& !changed_agents.map().contains_key(c)
                &&& !changed_vehicles.map().contains_key(c)
                &&& !left_agents.map().contains_key(c)
                &&& !left_vehicles.map().contains_key(c)
            },
            forall|c: ChunkCoord| !#[trigger] seen_upto(keys, i as int, c) ==> {
                &&& changed_agents.map().contains_key(c) == ca0.contains_key(c)
                &&& (ca0.contains_key(c) ==> changed_agents.map()[c] == ca0[c])
                &&& changed_vehicles.map().contains_key(c) == cv0.contains_key(c)
                &&& (cv0.contains_key(c) ==> changed_vehicles.map()[c] == cv0[c])
                &&& left_agents.map().contains_key(c) == la0.contains_key(c)
                &&& (la0.contains_key(c) ==> left_agents.map()[c] == la0[c])
                &&& left_vehicles.map().contains_key(c) == lv0.contains_key(c)
                &&& (lv0.contains_key(c) ==> left_vehicles.map()[c] == lv0[c])
            },
            forall|c: ChunkCoord| #[trigger] out.map().contains_key(c) ==> {
                let d = out.map()[c];
                &&& d.chunk == c
                &&& d.changed_agents@ == (if ca0.contains_key(c) { ca0[c]@ } else { Seq::empty() })
                &&& d.changed_vehicles@ == (if cv0.contains_key(c) { cv0[c]@ } else { Seq::empty() })
                &&& d.left_agents@ == (if la0.contains_key(c) { la0[c]@ } else { Seq::empty() })
                &&& d.left_vehicles@ == (if lv0.contains_key(c) { lv0[c]@ } else { Seq::empty() })
            },
        decreases n - i,
    {
        let c = all.entry_at(i).0;
        proof {
            assert forall|j: int| 0 <= j < i implies (#[trigger] keys[j]).0 != c by {
                assert(keys[j].0.key() != keys[i as int].0.key());
            }
            assert(!seen_upto(keys, i as int, c));
        }
        let ghost ca_b = changed_agents.map();
        let ghost cv_b = changed_vehicles.map();
        let ghost la_b = left_agents.map();
        let ghost lv_b = left_vehicles.map();
        let ca = take_list(&mut changed_agents, c);
        let cv = take_list(&mut changed_vehicles, c);
        let la = take_list(&mut left_agents, c);
        let lv = take_list(&mut left_vehicles, c);
        out.insert(c, MobilityChunkDelta {
            chunk: c,
            changed_agents: ca,
            changed_vehicles: cv,
            left_agents: la,
            left_vehicles: lv,
        });
        proof {
            assert forall|d: ChunkCoord| #[trigger] out.map().contains_key(d) implies {
                let dd = out.map()[d];
                &&& dd.chunk == d
                &&& dd.changed_agents@ == (if ca0.contains_key(d) { ca0[d]@ } else { Seq::empty() })
                &&& dd.changed_vehicles@ == (if cv0.contains_key(d) { cv0[d]@ } else { Seq::empty() })
                &&& dd.left_agents@ == (if la0.contains_key(d) { la0[d]@ } else { Seq::empty() })
                &&& dd.left_vehicles@ == (if lv0.contains_key(d) { lv0[d]@ } else { Seq::empty() })
            } by {
                if d == c {
                    assert(!seen_upto(keys, i as int, c));
                }
            }
            assert forall|d: ChunkCoord| #[trigger] out.map().contains_key(d) <==> seen_upto(keys, i + 1, d) by {
                if d == c {
                    assert(keys[i as int].0 == d);
                }
            }
            assert forall|d: ChunkCoord| #[trigger] seen_upto(keys, i + 1, d) implies {
                &&& !changed_agents.map().contains_key(d)
                &&& !changed_vehicles.map().contains_key(d)
                &&& !left_agents.map().contains_key(d)
                &&& !left_vehicles.map().contains_key(d)
            } by {
                let j = choose|j: int| 0 <= j < i + 1 && (#[trigger] keys[j]).0 == d;
                if j < i {
                    assert(seen_upto(keys, i as int, d));
                    assert(!ca_b.contains_key(d));
                }
            }
            assert forall|d: ChunkCoord| !#[trigger] seen_upto(keys, i + 1, d) implies {
                &&& changed_agents.map().contains_key(d) == ca0.contains_key(d)
                &&& (ca0.contains_key(d) ==> changed_agents.map()[d] == ca0[d])
                &&& changed_vehicles.map().contains_key(d) == cv0.contains_key(d)
                &&& (cv0.contains_key(d) ==> changed_vehicles.map()[d] == cv0[d])
                &&& left_agents.map().contains_key(d) == la0.contains_key(d)
                &&& (la0.contains_key(d) ==> left_agents.map()[d] == la0[d])
                &&& left_vehicles.map().contains_key(d) == lv0.contains_key(d)
                &&& (lv0.contains_key(d) ==> left_vehicles.map()[d] == lv0[d])
            } by {
                if keys[i as int].0 == d {
                    assert(seen_upto(keys, i + 1, d));
                }
                if seen_upto(keys, i as int, d) {
                    let j = choose|j: int| 0 <= j < i && (#[trigger] keys[j]).0 == d;
                    assert(0 <= j < i + 1 && keys[j].0 == d);
                    assert(seen_upto(keys, i + 1, d));
                }
                assert(!seen_upto(keys, i as int, d));
            }
        }
        i = i + 1;
    }
    proof {
        assert forall|c: ChunkCoord| #[trigger] out.map().contains_key(c) <==> all.map().dom().contains(c) by {
            if out.map().contains_key(c) {
                assert(seen_upto(keys, n as int, c));
                let j = choose|j: int| 0 <= j < n && (#[trigger] keys[j]).0 == c;
                assert(has_key(keys, c));
            }
            if all.map().dom().contains(c) {
                assert(has_key(keys, c));
                let j = choose|j: int| 0 <= j < keys.len() && (#[trigger] keys[j]).0.key() == c;
                assert(keys[j].0 == c);
                assert(seen_upto(keys, n as int, c));
            }
        }
    }
    out
}

} // verus!

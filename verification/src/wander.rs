//! Wandering: an agent that stays at an activity strolls from footway to
//! footway, picking the next one by a hash of who it is, where it is and when.
use vstd::prelude::*;

use crate::graph::{EdgeKind, RoutingGraph, canonical_key_of, edge_by_canonical_key_spec};
use crate::ids::{AgentId, EdgeId, NodeId};
use crate::plan::WalkPoint;
use crate::text::{chars_lt, lemma_chars_lt_transitive, lemma_chars_lt_trichotomy, str_equal, str_lt};

verus! {

/// FNV-1a 64-bit offset basis.
pub const FNV_OFFSET: u64 = 0xcbf29ce484222325;

/// FNV-1a 64-bit prime.
pub const FNV_PRIME: u64 = 0x100000001b3;

/// FNV-1a hash of `bytes`.
pub open spec fn fnv1a(bytes: Seq<u8>) -> u64
    decreases bytes.len(),
{
    if bytes.len() == 0 {
        FNV_OFFSET
    } else {
        vstd::wrapping::u64_specs::wrapping_mul(fnv1a(bytes.drop_last()) ^ (bytes.last() as u64), FNV_PRIME)
    }
}

/// Byte `k` (least significant first) of `t`.
pub open spec fn le_byte(t: u64, k: u64) -> u8 {
    ((t >> (8 * k) as u64) & 0xff) as u8
}

/// The `count` least significant bytes of `t`, least significant first.
pub open spec fn le_bytes_n(t: u64, count: nat) -> Seq<u8> {
    Seq::new(count, |k: int| le_byte(t, k as u64))
}

/// The eight little-endian bytes of `t`.
pub open spec fn le_bytes(t: u64) -> Seq<u8> {
    le_bytes_n(t, 8)
}

/// Appends the `count` least significant bytes of `t` to `v`, least
/// significant first.
pub(crate) fn push_le_bytes(v: &mut Vec<u8>, t: u64, count: u64)
    requires
        count <= 8,
    ensures
        final(v)@ == old(v)@ + le_bytes_n(t, count as nat),
{
    let mut k: u64 = 0;
    while k < count
        invariant
            k <= count <= 8,
            v@ == old(v)@ + le_bytes_n(t, k as nat),
        decreases count - k,
    {
        v.push(((t >> (8 * k)) & 0xff) as u8);
        assert(old(v)@ + le_bytes_n(t, (k + 1) as nat) =~= (old(v)@ + le_bytes_n(t, k as nat)).push(le_byte(t, k)));
        k = k + 1;
    }
}

/// Continues an FNV-1a hash of `prefix` over `bytes`.
pub(crate) fn fnv1a_extend(hash: u64, bytes: &[u8], Ghost(prefix): Ghost<Seq<u8>>) -> (r: u64)
    requires
        hash == fnv1a(prefix),
    ensures
        r == fnv1a(prefix + bytes@),
{
    let mut h = hash;
    let n = bytes.len();
    let mut i: usize = 0;
    assert(prefix + bytes@.subrange(0, 0) =~= prefix);
    while i < n
        invariant
            n == bytes@.len(),
            i <= n,
            h == fnv1a(prefix + bytes@.subrange(0, i as int)),
        decreases n - i,
    {
        let ghost before = prefix + bytes@.subrange(0, i as int);
        let ghost after = prefix + bytes@.subrange(0, i + 1);
        assert(after.drop_last() =~= before);
        assert(after.last() == bytes@[i as int]);
        h = (h ^ (bytes[i] as u64)).wrapping_mul(FNV_PRIME);
        i = i + 1;
    }
    assert(bytes@.subrange(0, n as int) =~= bytes@);
    h
}

/// The seed that picks a wandering agent's next footway: FNV-1a over the
/// agent id's bytes, the current link's bytes and the tick's little-endian
/// bytes.
pub fn wander_seed(agent_id: &str, current_link_id: &str, tick: u64) -> (r: u64)
    ensures
        r == fnv1a(vstd::utf8::encode_utf8(agent_id@) + vstd::utf8::encode_utf8(current_link_id@) + le_bytes(tick)),
{
    let h0 = fnv1a_extend(FNV_OFFSET, agent_id.as_bytes(), Ghost(Seq::empty()));
    assert(Seq::<u8>::empty() + vstd::utf8::encode_utf8(agent_id@) =~= vstd::utf8::encode_utf8(agent_id@));
    let h1 = fnv1a_extend(h0, current_link_id.as_bytes(), Ghost(vstd::utf8::encode_utf8(agent_id@)));
    let mut tb: Vec<u8> = Vec::new();
    push_le_bytes(&mut tb, tick, 8);
    assert(tb@ =~= le_bytes(tick));
    fnv1a_extend(h1, tb.as_slice(), Ghost(vstd::utf8::encode_utf8(agent_id@) + vstd::utf8::encode_utf8(current_link_id@)))
}

/// The character views of a list of strings.
pub open spec fn strs_view(v: Seq<String>) -> Seq<Seq<char>> {
    v.map_values(|s: String| s@)
}

/// Strictly increasing in `chars_lt` order (so also free of repeats).
pub open spec fn sorted_strict(s: Seq<Seq<char>>) -> bool {
    forall|i: int, j: int| 0 <= i < j < s.len() ==> chars_lt(#[trigger] s[i], #[trigger] s[j])
}

/// `s` lists the members of `set` in increasing order, each once.
pub open spec fn sorted_listing(s: Seq<Seq<char>>, set: Set<Seq<char>>) -> bool {
    &&& sorted_strict(s)
    &&& forall|k: Seq<char>| set.contains(k) <==> s.contains(k)
}

/// Adds `s` to the sorted list `v` unless it is already there.
fn insert_sorted_unique(v: &mut Vec<String>, s: String)
    requires
        sorted_strict(strs_view(old(v)@)),
    ensures
        sorted_strict(strs_view(final(v)@)),
        forall|k: Seq<char>| strs_view(final(v)@).contains(k) <==> (strs_view(old(v)@).contains(k) || k == s@),
{
    let ghost old_view = strs_view(v@);
    let n = v.len();
    let mut i: usize = 0;
    while i < n && str_lt(v[i].as_str(), s.as_str())
        invariant
            n == v@.len(),
            i <= n,
            v@ == old(v)@,
            forall|j: int| 0 <= j < i ==> chars_lt(#[trigger] v@[j]@, s@),
        decreases n - i,
    {
        i = i + 1;
    }
    if i < n && str_equal(v[i].as_str(), s.as_str()) {
        proof {
            assert forall|k: Seq<char>| strs_view(v@).contains(k) <==> (old_view.contains(k) || k == s@) by {
                if k == s@ {
                    assert(strs_view(v@)[i as int] == k);
                }
            }
        }
        return;
    }
    proof {
        if i < n {
            lemma_chars_lt_trichotomy(v@[i as int]@, s@);
        }
    }
    let ghost sv = s@;
    v.insert(i, s);
    let ghost t = strs_view(v@);
    proof {
        assert(t =~= old_view.insert(i as int, sv));
        assert forall|p: int, q: int| 0 <= p < q < t.len() implies chars_lt(#[trigger] t[p], #[trigger] t[q]) by {
            if q < i {
                assert(t[p] == old_view[p] && t[q] == old_view[q]);
            } else if q == i {
                assert(t[q] == sv && t[p] == old_view[p]);
                assert(chars_lt(old(v)@[p]@, sv));
            } else if p == i {
                assert(t[p] == sv && t[q] == old_view[q - 1]);
                if q - 1 > i {
                    assert(chars_lt(old_view[i as int], old_view[q - 1]));
                    lemma_chars_lt_transitive(sv, old_view[i as int], old_view[q - 1]);
                }
            } else if p < i {
                assert(t[p] == old_view[p] && t[q] == old_view[q - 1]);
                assert(chars_lt(old(v)@[p]@, sv));
                if q - 1 > i {
                    assert(chars_lt(old_view[i as int], old_view[q - 1]));
                    lemma_chars_lt_transitive(sv, old_view[i as int], old_view[q - 1]);
                }
                lemma_chars_lt_transitive(old_view[p], sv, old_view[q - 1]);
            } else {
                assert(t[p] == old_view[p - 1] && t[q] == old_view[q - 1]);
            }
        }
        assert forall|k: Seq<char>| t.contains(k) <==> (old_view.contains(k) || k == sv) by {
            if t.contains(k) {
                let j = choose|j: int| 0 <= j < t.len() && t[j] == k;
                if j < i {
                    assert(old_view[j] == k);
                } else if j > i {
                    assert(old_view[j - 1] == k);
                }
            }
            if old_view.contains(k) {
                let j = choose|j: int| 0 <= j < old_view.len() && old_view[j] == k;
                if j < i {
                    assert(t[j] == k);
                } else {
                    assert(t[j + 1] == k);
                }
            }
            if k == sv {
                assert(t[i as int] == k);
            }
        }
    }
}

/// Whether edge `i` of `g` is a footway leaving `node`, other than `skip`.
pub open spec fn is_footway_from(g: RoutingGraph, i: int, node: NodeId, skip: Option<EdgeId>) -> bool {
    &&& g.edges@[i].from == node
    &&& g.edges@[i].kind == EdgeKind::Footway
    &&& skip != Some(g.edges@[i].id)
}

/// The canonical keys of the footways leaving `node`, other than `skip`.
pub open spec fn footway_keys(g: RoutingGraph, node: NodeId, skip: Option<EdgeId>) -> Set<Seq<char>> {
    Set::new(|k: Seq<char>| exists|i: int| 0 <= i < g.edges@.len() && #[trigger] is_footway_from(g, i, node, skip) && canonical_key_of(g.edges@[i]) == k)
}

/// The keys of the footways leaving `node` other than `skip`, sorted.
fn sorted_footway_keys(graph: &RoutingGraph, node: NodeId, skip: Option<EdgeId>) -> (r: Vec<String>)
    requires
        graph.well_formed(),
    ensures
        sorted_listing(strs_view(r@), footway_keys(*graph, node, skip)),
{
    let mut keys: Vec<String> = Vec::new();
    let n = graph.edges.len();
    let mut i: usize = 0;
    while i < n
        invariant
            graph.well_formed(),
            n == graph.edges@.len(),
            i <= n,
            sorted_strict(strs_view(keys@)),
            forall|k: Seq<char>| strs_view(keys@).contains(k) <==> exists|j: int| 0 <= j < i && #[trigger] is_footway_from(*graph, j, node, skip) && canonical_key_of(graph.edges@[j]) == k,
        decreases n - i,
    {
        let e = &graph.edges[i];
        let take = e.from == node && e.kind == EdgeKind::Footway && match skip {
            Some(x) => x != e.id,
            None => true,
        };
        assert(take == is_footway_from(*graph, i as int, node, skip));
        let ghost before = strs_view(keys@);
        if take {
            let key = graph.canonical_edge_key(EdgeId(i as u32));
            insert_sorted_unique(&mut keys, key);
        }
        proof {
            assert forall|k: Seq<char>| strs_view(keys@).contains(k) <==> exists|j: int| 0 <= j < i + 1 && #[trigger] is_footway_from(*graph, j, node, skip) && canonical_key_of(graph.edges@[j]) == k by {
                if exists|j: int| 0 <= j < i + 1 && #[trigger] is_footway_from(*graph, j, node, skip) && canonical_key_of(graph.edges@[j]) == k {
                    let j = choose|j: int| 0 <= j < i + 1 && #[trigger] is_footway_from(*graph, j, node, skip) && canonical_key_of(graph.edges@[j]) == k;
                    if j < i {
                        assert(before.contains(k));
                    }
                }
                if strs_view(keys@).contains(k) && !before.contains(k) {
                    assert(is_footway_from(*graph, i as int, node, skip) && canonical_key_of(graph.edges@[i as int]) == k);
                }
            }
        }
        i = i + 1;
    }
    keys
}

/// The footways a wanderer at `node` may take next when it arrived over
/// edge `current`: the other footways leaving `node`, or, when there are
/// none, all of them (turning back).
pub open spec fn wander_candidates(g: RoutingGraph, node: NodeId, current: EdgeId) -> Set<Seq<char>> {
    if footway_keys(g, node, Some(current)).is_empty() {
        footway_keys(g, node, None)
    } else {
        footway_keys(g, node, Some(current))
    }
}

/// The node a walker on edge `e` stands at: its end once it reached it,
/// else its start.
pub open spec fn standing_node(g: RoutingGraph, e: EdgeId, at: WalkPoint) -> NodeId {
    if at == WalkPoint::End { g.edges@[e.0 as int].to } else { g.edges@[e.0 as int].from }
}

/// Whether `r` is the link a wanderer on `link`, standing at `at`, takes
/// next (see `next_wander_footway_link`).
pub open spec fn wander_result(g: RoutingGraph, link: Seq<char>, at: WalkPoint, agent: Seq<char>, tick: u64, r: Option<Seq<char>>) -> bool {
    match edge_by_canonical_key_spec(g, link) {
        None => r is None,
        Some(cur) => {
            let cands = wander_candidates(g, standing_node(g, cur, at), cur);
            let seed = fnv1a(vstd::utf8::encode_utf8(agent) + vstd::utf8::encode_utf8(link) + le_bytes(tick));
            if cands.is_empty() {
                r is None
            } else {
                r is Some && exists|s: Seq<Seq<char>>| #[trigger] sorted_listing(s, cands)
                    && r->0 == s[((seed as usize) % (s.len() as usize)) as int]
            }
        },
    }
}

/// The link a wandering agent takes next from link `current_link_id`: the
/// candidate (see `wander_candidates`) at position `seed % count` in sorted
/// order, where `seed` is `wander_seed` of the agent, the link and the tick.
/// `None` when the link names no edge or there is no candidate.
pub fn next_wander_footway_link(graph: &RoutingGraph, current_link_id: &str, at: WalkPoint, agent_id: &AgentId, tick: u64) -> (r: Option<String>)
    requires
        graph.well_formed(),
    ensures
        wander_result(*graph, current_link_id@, at, agent_id@, tick, match r { Some(l) => Some(l@), None => None }),
{
    proof { crate::graph::lemma_edge_by_canonical_key_sound(*graph, current_link_id@); }
    let cur = match graph.edge_by_canonical_key(current_link_id) {
        Some(e) => e,
        None => return None,
    };
    let e = &graph.edges[cur.0 as usize];
    let node = if at == WalkPoint::End { e.to } else { e.from };
    let mut cands = sorted_footway_keys(graph, node, Some(cur));
    if cands.len() == 0 {
        proof {
            assert forall|k: Seq<char>| !footway_keys(*graph, node, Some(cur)).contains(k) by {
                if footway_keys(*graph, node, Some(cur)).contains(k) {
                    assert(strs_view(cands@).contains(k));
                }
            }
            assert(footway_keys(*graph, node, Some(cur)) =~= Set::empty());
        }
        cands = sorted_footway_keys(graph, node, None);
    } else {
        proof {
            assert(strs_view(cands@).contains(strs_view(cands@)[0]));
            assert(footway_keys(*graph, node, Some(cur)).contains(strs_view(cands@)[0]));
        }
    }
    let ghost set = wander_candidates(*graph, node, cur);
    assert(sorted_listing(strs_view(cands@), set));
    if cands.len() == 0 {
        proof {
            assert forall|k: Seq<char>| !set.contains(k) by {
                if set.contains(k) {
                    assert(strs_view(cands@).contains(k));
                }
            }
            assert(set =~= Set::empty());
        }
        return None;
    }
    proof {
        assert(strs_view(cands@).contains(strs_view(cands@)[0]));
        assert(set.contains(strs_view(cands@)[0]));
    }
    let seed = wander_seed(agent_id.0.as_str(), current_link_id, tick);
    let index = (seed as usize) % cands.len();
    let picked = cands[index].clone();
    assert(sorted_listing(strs_view(cands@), set) && strs_view(cands@).len() > 0);
    Some(picked)
}

/// A set has only one sorted listing, so the wandering pick is determined
/// by the candidates and the seed.
pub proof fn lemma_sorted_listing_unique(s1: Seq<Seq<char>>, s2: Seq<Seq<char>>, set: Set<Seq<char>>)
    requires
        sorted_listing(s1, set),
        sorted_listing(s2, set),
    ensures
        s1 == s2,
    decreases s1.len(),
{
    if s1.len() == 0 {
        if s2.len() > 0 {
            assert(s2.contains(s2[0]));
            assert(set.contains(s2[0]));
        }
        assert(s1 =~= s2);
    } else {
        let x = s1[0];
        assert(s1.contains(x));
        assert(set.contains(x));
        let j = choose|j: int| 0 <= j < s2.len() && s2[j] == x;
        assert(s2.contains(s2[0]));
        assert(set.contains(s2[0]));
        let i = choose|i: int| 0 <= i < s1.len() && s1[i] == s2[0];
        if j > 0 {
            assert(chars_lt(s2[0], s2[j]));
            if i > 0 {
                assert(chars_lt(s1[0], s1[i]));
                lemma_chars_lt_trichotomy(s1[0], s2[0]);
            } else {
                lemma_chars_lt_trichotomy(s2[0], s2[j]);
            }
        }
        assert(s2[0] == x);
        let t1 = s1.drop_first();
        let t2 = s2.drop_first();
        let rest = set.remove(x);
        assert(sorted_strict(t1)) by {
            assert forall|p: int, q: int| 0 <= p < q < t1.len() implies chars_lt(#[trigger] t1[p], #[trigger] t1[q]) by {
                assert(t1[p] == s1[p + 1] && t1[q] == s1[q + 1]);
            }
        }
        assert(sorted_strict(t2)) by {
            assert forall|p: int, q: int| 0 <= p < q < t2.len() implies chars_lt(#[trigger] t2[p], #[trigger] t2[q]) by {
                assert(t2[p] == s2[p + 1] && t2[q] == s2[q + 1]);
            }
        }
        assert forall|k: Seq<char>| rest.contains(k) <==> t1.contains(k) by {
            if t1.contains(k) {
                let p = choose|p: int| 0 <= p < t1.len() && t1[p] == k;
                assert(s1[p + 1] == k);
                assert(s1.contains(k));
                assert(chars_lt(s1[0], s1[p + 1]));
                lemma_chars_lt_trichotomy(s1[0], k);
            }
            if rest.contains(k) {
                assert(s1.contains(k));
                let p = choose|p: int| 0 <= p < s1.len() && s1[p] == k;
                assert(p != 0);
                assert(t1[p - 1] == k);
            }
        }
        assert forall|k: Seq<char>| rest.contains(k) <==> t2.contains(k) by {
            if t2.contains(k) {
                let p = choose|p: int| 0 <= p < t2.len() && t2[p] == k;
                assert(s2[p + 1] == k);
                assert(s2.contains(k));
                assert(chars_lt(s2[0], s2[p + 1]));
                lemma_chars_lt_trichotomy(s2[0], k);
            }
            if rest.contains(k) {
                assert(s2.contains(k));
                let p = choose|p: int| 0 <= p < s2.len() && s2[p] == k;
                assert(p != 0);
                assert(t2[p - 1] == k);
            }
        }
        lemma_sorted_listing_unique(t1, t2, rest);
        assert(s1 =~= seq![x] + t1);
        assert(s2 =~= seq![x] + t2);
    }
}

} // verus!

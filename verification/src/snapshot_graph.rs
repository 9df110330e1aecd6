//! Rebuilding the routing graph from a persisted snapshot: one edge per
//! persisted link between nodes shared by equal end points, a reverse
//! footway for walking links, stops placed on their links, and the traffic
//! routes over the rebuilt edges. Points are identified by their keys (the
//! bit patterns of their coordinates); positions stay with the caller.
use vstd::prelude::*;

use crate::assoc::AssocList;
use crate::graph::{EdgeKind, GraphEdge, GraphNode, NodeKind, RoutingGraph, canonical_key_of, resolve_canonical_edge_key_spec};
use crate::ids::{AgentId, EdgeId, NodeId};
use crate::plan::{WaitingAgents, WalkPoint, queue_view};
use crate::records::{PersistedRoute, PlanStage};
use crate::restore::{PersistedRouteStep, edge_kind_for_mode, edge_kind_for_mode_spec};
use crate::routing::ModeState;
use crate::sorting::{Keyed, ids_distinct, ids_sorted, insert_by_key, sort_by_key};
use crate::text::{chars_lt, lemma_chars_lt_trichotomy, str_equal};
use crate::transit::ids_view;
use crate::text::starts_with;

verus! {

/// Key of a point: the bit patterns of its two coordinates.
#[derive(Debug, Clone, Copy, PartialEq, Eq, Structural)]
pub struct PointKey {
    pub x: u32,
    pub y: u32,
}

/// The first and last point of a persisted link's polyline.
#[derive(Debug, Clone)]
pub struct LinkEnds {
    pub link_id: String,
    pub start: PointKey,
    pub end: PointKey,
}

/// The end points listed for link `l` (the first entry naming it).
pub open spec fn ends_from(table: Seq<LinkEnds>, l: Seq<char>, i: int) -> Option<(PointKey, PointKey)>
    decreases table.len() - i,
{
    if i < 0 || i >= table.len() {
        None
    } else if table[i].link_id@ == l {
        Some((table[i].start, table[i].end))
    } else {
        ends_from(table, l, i + 1)
    }
}

/// The end points listed for link `l`.
pub open spec fn ends_of(table: Seq<LinkEnds>, l: Seq<char>) -> Option<(PointKey, PointKey)> {
    ends_from(table, l, 0)
}

/// Whether edge `e` is named after link `l`.
pub open spec fn named(e: GraphEdge, l: Seq<char>) -> bool {
    e.legacy_id matches Some(x) && x@ == l
}

/// What an edge shows of itself: the link it is named after (if any) and
/// its kind.
pub open spec fn edge_entry(e: GraphEdge) -> (Option<Seq<char>>, EdgeKind) {
    (
        match e.legacy_id {
            Some(x) => Some(x@),
            None => None,
        },
        e.kind,
    )
}

/// The entries of the edges of `g`, in edge-id order.
#[verifier::opaque]
pub open spec fn edge_entries(g: RoutingGraph) -> Seq<(Option<Seq<char>>, EdgeKind)> {
    g.edges@.map_values(|e: GraphEdge| edge_entry(e))
}

/// Whether the edges of `g` are those of `g0` followed by edges with the
/// entries `tail`.
#[verifier::opaque]
pub open spec fn entries_extend(g0: RoutingGraph, g: RoutingGraph, tail: Seq<(Option<Seq<char>>, EdgeKind)>) -> bool {
    edge_entries(g) == edge_entries(g0) + tail
}

/// Whether some entry of `acc` is named after link `l`.
pub open spec fn names_link(acc: Seq<(Option<Seq<char>>, EdgeKind)>, l: Seq<char>) -> bool {
    exists|i: int| 0 <= i < acc.len() && #[trigger] acc[i].0 == Some(l)
}

/// The entries of the edges built for use `u` (a link and the kind it
/// needs): its edge, followed, for a walking footway, by the unnamed
/// footway back.
pub open spec fn step_tail(u: (Seq<char>, EdgeKind)) -> Seq<(Option<Seq<char>>, EdgeKind)> {
    if is_walk_link(u.0) && u.1 == EdgeKind::Footway {
        seq![(Some(u.0), u.1), (None, EdgeKind::Footway)]
    } else {
        seq![(Some(u.0), u.1)]
    }
}

/// The edge entries after use `u` is built onto `acc`: nothing when its
/// link already has an edge, else the edges of `step_tail`.
pub open spec fn link_step(acc: Seq<(Option<Seq<char>>, EdgeKind)>, u: (Seq<char>, EdgeKind)) -> Seq<(Option<Seq<char>>, EdgeKind)> {
    if names_link(acc, u.0) { acc } else { acc + step_tail(u) }
}

/// The edge entries after the uses `items` are built onto `acc`, in order.
pub open spec fn link_steps(acc: Seq<(Option<Seq<char>>, EdgeKind)>, items: Seq<(Seq<char>, EdgeKind)>) -> Seq<(Option<Seq<char>>, EdgeKind)>
    decreases items.len(),
{
    if items.len() == 0 {
        acc
    } else {
        link_step(link_steps(acc, items.drop_last()), items.last())
    }
}

/// Building one more use builds on what the earlier ones built.
proof fn lemma_link_steps_push(acc: Seq<(Option<Seq<char>>, EdgeKind)>, items: Seq<(Seq<char>, EdgeKind)>, u: (Seq<char>, EdgeKind))
    ensures
        link_steps(acc, items.push(u)) == link_step(link_steps(acc, items), u),
{
    assert(items.push(u).drop_last() =~= items);
}

/// The links of a route, each as a road.
pub open spec fn road_items(links: Seq<String>) -> Seq<(Seq<char>, EdgeKind)> {
    links.map_values(|l: String| (l@, EdgeKind::Road))
}

/// The links of the first `n` routes, in order, each as a road.
pub open spec fn route_items(routes: Seq<PersistedRoute>, n: int) -> Seq<(Seq<char>, EdgeKind)>
    decreases n,
{
    if n <= 0 { Seq::empty() } else { route_items(routes, n - 1) + road_items(routes[n - 1].links@) }
}

/// Whether `w` lists the uses of `s`, each once, in strictly increasing
/// link order.
pub open spec fn lists_in_link_order(w: Seq<(Seq<char>, EdgeKind)>, s: Set<(Seq<char>, EdgeKind)>) -> bool {
    &&& forall|i: int, j: int| 0 <= i < j < w.len() ==> chars_lt(#[trigger] w[i].0, #[trigger] w[j].0)
    &&& forall|u: (Seq<char>, EdgeKind)| w.contains(u) <==> s.contains(u)
}

/// The uses of `s` in link order (see `lists_in_link_order`; there is at
/// most one such listing, see `lemma_link_order_unique`).
pub open spec fn in_link_order(s: Set<(Seq<char>, EdgeKind)>) -> Seq<(Seq<char>, EdgeKind)> {
    choose|w: Seq<(Seq<char>, EdgeKind)>| lists_in_link_order(w, s)
}

/// Two listings of the same uses in strictly increasing link order are the
/// same listing.
pub proof fn lemma_link_order_unique(w1: Seq<(Seq<char>, EdgeKind)>, w2: Seq<(Seq<char>, EdgeKind)>, s: Set<(Seq<char>, EdgeKind)>)
    requires
        lists_in_link_order(w1, s),
        lists_in_link_order(w2, s),
    ensures
        w1 == w2,
    decreases w1.len(),
{
    if w1.len() == 0 {
        if w2.len() > 0 {
            assert(w2.contains(w2[0]));
        }
        assert(w1 =~= w2);
    } else {
        let x = w1[0];
        assert(w1.contains(x));
        let j = choose|j: int| 0 <= j < w2.len() && w2[j] == x;
        assert(w2.contains(w2[0]));
        let i = choose|i: int| 0 <= i < w1.len() && w1[i] == w2[0];
        if j > 0 && i > 0 {
            assert(chars_lt(w2[0].0, w2[j].0));
            assert(chars_lt(w1[0].0, w1[i].0));
            lemma_chars_lt_trichotomy(w1[0].0, w2[0].0);
        }
        assert(w2[0] == x);
        let t1 = w1.drop_first();
        let t2 = w2.drop_first();
        let s2 = s.remove(x);
        assert forall|y: (Seq<char>, EdgeKind)| t1.contains(y) <==> s2.contains(y) by {
            if t1.contains(y) {
                let k = choose|k: int| 0 <= k < t1.len() && t1[k] == y;
                assert(w1[k + 1] == y);
                assert(chars_lt(w1[0].0, w1[k + 1].0));
                lemma_chars_lt_trichotomy(x.0, y.0);
                assert(w1.contains(y));
            }
            if s2.contains(y) {
                assert(w1.contains(y));
                let m = choose|m: int| 0 <= m < w1.len() && w1[m] == y;
                assert(m != 0);
                assert(t1[m - 1] == y);
            }
        }
        assert forall|y: (Seq<char>, EdgeKind)| t2.contains(y) <==> s2.contains(y) by {
            if t2.contains(y) {
                let k = choose|k: int| 0 <= k < t2.len() && t2[k] == y;
                assert(w2[k + 1] == y);
                assert(chars_lt(w2[0].0, w2[k + 1].0));
                lemma_chars_lt_trichotomy(x.0, y.0);
                assert(w2.contains(y));
            }
            if s2.contains(y) {
                assert(w2.contains(y));
                let m = choose|m: int| 0 <= m < w2.len() && w2[m] == y;
                assert(m != 0);
                assert(t2[m - 1] == y);
            }
        }
        assert forall|a: int, b: int| 0 <= a < b < t1.len() implies chars_lt(#[trigger] t1[a].0, #[trigger] t1[b].0) by {
            assert(t1[a] == w1[a + 1] && t1[b] == w1[b + 1]);
        }
        assert forall|a: int, b: int| 0 <= a < b < t2.len() implies chars_lt(#[trigger] t2[a].0, #[trigger] t2[b].0) by {
            assert(t2[a] == w2[a + 1] && t2[b] == w2[b + 1]);
        }
        lemma_link_order_unique(t1, t2, s2);
        assert(w1 =~= seq![x] + t1);
        assert(w2 =~= seq![x] + t2);
    }
}

/// The uses of `uses`, as a set.
pub open spec fn use_set(uses: Seq<(Seq<char>, EdgeKind)>) -> Set<(Seq<char>, EdgeKind)> {
    Set::new(|u: (Seq<char>, EdgeKind)| uses.contains(u))
}

/// The walking links among `ids`, each as a footway, as a set.
pub open spec fn walk_polyline_uses(ids: Seq<String>) -> Set<(Seq<char>, EdgeKind)> {
    Set::new(|u: (Seq<char>, EdgeKind)| u.1 == EdgeKind::Footway && polyline_walk_link(ids, u.0))
}

/// The edge entries of a rebuilt graph: the route links (routes in order,
/// links in order) as roads, then the uses of the agents in link order,
/// then the walking links with a polyline in link order, each built as
/// `link_step` says.
pub open spec fn rebuilt_entries(
    routes: Seq<PersistedRoute>,
    uses: Seq<(Seq<char>, EdgeKind)>,
    ids: Seq<String>,
) -> Seq<(Option<Seq<char>>, EdgeKind)> {
    link_steps(
        link_steps(link_steps(Seq::empty(), route_items(routes, routes.len() as int)), in_link_order(use_set(uses))),
        in_link_order(walk_polyline_uses(ids)),
    )
}

/// An id-sorted list of link uses lists its uses in link order.
proof fn lemma_listing_of(v: Seq<LinkKind>, s: Set<(Seq<char>, EdgeKind)>)
    requires
        ids_sorted(v),
        forall|u: (Seq<char>, EdgeKind)| uses_view(v).contains(u) <==> s.contains(u),
    ensures
        in_link_order(s) == uses_view(v),
{
    let w = uses_view(v);
    assert forall|i: int, j: int| 0 <= i < j < w.len() implies chars_lt(#[trigger] w[i].0, #[trigger] w[j].0) by {
        assert(chars_lt(v[i].sort_key(), v[j].sort_key()));
    }
    lemma_in_link_order(w, s);
}

/// Graphs with the same edges have the same edge entries.
proof fn lemma_entries_same_edges(g1: RoutingGraph, g2: RoutingGraph)
    requires
        g1.edges == g2.edges,
    ensures
        edge_entries(g1) == edge_entries(g2),
{
    reveal(edge_entries);
}

/// A listing in link order is the one `in_link_order` names.
proof fn lemma_in_link_order(w: Seq<(Seq<char>, EdgeKind)>, s: Set<(Seq<char>, EdgeKind)>)
    requires
        lists_in_link_order(w, s),
    ensures
        in_link_order(s) == w,
{
    assert(exists|v: Seq<(Seq<char>, EdgeKind)>| lists_in_link_order(v, s));
    lemma_link_order_unique(in_link_order(s), w, s);
}

/// Point keys, where present, are distinct.
#[verifier::opaque]
pub open spec fn keys_distinct(keys: Seq<Option<PointKey>>) -> bool {
    forall|i: int, j: int| 0 <= i < j < keys.len() && keys[i] is Some ==> #[trigger] keys[i] != #[trigger] keys[j]
}

/// Every link `by_link` records names an existing edge of that link.
#[verifier::opaque]
pub open spec fn links_recorded(g: RoutingGraph, by_link: AssocList<String, EdgeId>) -> bool {
    forall|l: Seq<char>| #[trigger] by_link.map().contains_key(l) ==>
        (by_link.map()[l].0 as int) < g.edges@.len() && named(g.edges@[by_link.map()[l].0 as int], l)
}

/// Edge `i` is consistent: a named edge is the one `by_link` records for
/// its link and joins the nodes of the link's end points; an unnamed edge
/// reverses the named footway just before it.
pub open spec fn edge_ok(g: RoutingGraph, keys: Seq<Option<PointKey>>, by_link: AssocList<String, EdgeId>, table: Seq<LinkEnds>, i: int) -> bool {
    match g.edges@[i].legacy_id {
        Some(x) => {
            &&& by_link.map().contains_key(x@)
            &&& by_link.map()[x@] == EdgeId(i as u32)
            &&& ends_of(table, x@) matches Some((s, t))
            &&& keys[g.edges@[i].from.0 as int] == Some(s)
            &&& keys[g.edges@[i].to.0 as int] == Some(t)
        },
        None => {
            &&& i > 0
            &&& g.edges@[i - 1].legacy_id is Some
            &&& g.edges@[i - 1].kind == EdgeKind::Footway
            &&& g.edges@[i].kind == EdgeKind::Footway
            &&& g.edges@[i].from == g.edges@[i - 1].to
            &&& g.edges@[i].to == g.edges@[i - 1].from
        },
    }
}

/// Every edge is consistent (see `edge_ok`).
#[verifier::opaque]
pub open spec fn edges_consistent(g: RoutingGraph, keys: Seq<Option<PointKey>>, by_link: AssocList<String, EdgeId>, table: Seq<LinkEnds>) -> bool {
    forall|i: int| 0 <= i < g.edges@.len() ==> #[trigger] edge_ok(g, keys, by_link, table, i)
}

/// The state of a graph being rebuilt: a well-formed graph whose nodes carry
/// distinct point keys (or none), whose named edges join the nodes of their
/// link's end points and are the ones `by_link` records, and whose unnamed
/// edges each reverse the named footway just before them.
#[verifier::opaque]
pub open spec fn builder_wf(
    g: RoutingGraph,
    keys: Seq<Option<PointKey>>,
    by_link: AssocList<String, EdgeId>,
    table: Seq<LinkEnds>,
) -> bool {
    &&& g.well_formed()
    &&& keys.len() == g.nodes@.len()
    &&& keys_distinct(keys)
    &&& by_link.well_formed()
    &&& links_recorded(g, by_link)
    &&& edges_consistent(g, keys, by_link, table)
}

/// A graph being rebuilt is well formed and has a key slot per node.
pub proof fn lemma_builder_lens(g: RoutingGraph, keys: Seq<Option<PointKey>>, by_link: AssocList<String, EdgeId>, table: Seq<LinkEnds>)
    requires
        builder_wf(g, keys, by_link, table),
    ensures
        g.well_formed(),
        keys.len() == g.nodes@.len(),
        by_link.well_formed(),
{
    reveal(builder_wf);
}

/// In a graph being rebuilt, a link has an edge exactly when `by_link`
/// records it.
proof fn lemma_recorded_iff_named(g: RoutingGraph, keys: Seq<Option<PointKey>>, by_link: AssocList<String, EdgeId>, table: Seq<LinkEnds>, l: Seq<char>)
    requires
        builder_wf(g, keys, by_link, table),
    ensures
        names_link(edge_entries(g), l) <==> by_link.map().contains_key(l),
{
    reveal(builder_wf);
    reveal(links_recorded);
    reveal(edges_consistent);
    reveal(edge_entries);
    let es = edge_entries(g);
    if by_link.map().contains_key(l) {
        let i = by_link.map()[l].0 as int;
        assert(es[i].0 == Some(l));
    }
    if names_link(es, l) {
        let i = choose|i: int| 0 <= i < es.len() && #[trigger] es[i].0 == Some(l);
        assert(edge_ok(g, keys, by_link, table, i));
    }
}

/// An empty graph to rebuild into.
pub fn empty_builder(Ghost(table): Ghost<Seq<LinkEnds>>) -> (r: (RoutingGraph, Vec<Option<PointKey>>, AssocList<String, EdgeId>))
    ensures
        builder_wf(r.0, r.1@, r.2, table),
        r.0.nodes@.len() == 0,
        r.0.edges@.len() == 0,
        r.2.map() =~= Map::empty(),
{
    let r = (RoutingGraph { nodes: Vec::new(), edges: Vec::new() }, Vec::new(), AssocList::new());
    proof {
        reveal(builder_wf);
        reveal(keys_distinct);
        reveal(links_recorded);
        reveal(edges_consistent);
    }
    r
}

/// The index of the node whose key is `key`.
fn find_key(keys: &Vec<Option<PointKey>>, key: PointKey) -> (r: Option<usize>)
    ensures
        match r {
            Some(i) => i < keys@.len() && keys@[i as int] == Some(key),
            None => !keys@.contains(Some(key)),
        },
{
    let n = keys.len();
    let mut i: usize = 0;
    while i < n
        invariant
            n == keys@.len(),
            i <= n,
            forall|j: int| 0 <= j < i ==> keys@[j] != Some(key),
        decreases n - i,
    {
        if let Some(k) = keys[i] {
            if k == key {
                return Some(i);
            }
        }
        i = i + 1;
    }
    None
}

/// Adding a node with a fresh key keeps a graph being rebuilt consistent.
proof fn lemma_push_node(
    g: RoutingGraph,
    g2: RoutingGraph,
    keys: Seq<Option<PointKey>>,
    key: PointKey,
    by_link: AssocList<String, EdgeId>,
    table: Seq<LinkEnds>,
)
    requires
        builder_wf(g, keys, by_link, table),
        !keys.contains(Some(key)),
        g.nodes@.len() < u32::MAX,
        g2.edges == g.edges,
        g2.nodes@.len() == g.nodes@.len() + 1,
        forall|i: int| 0 <= i < g.nodes@.len() ==> g2.nodes@[i] == g.nodes@[i],
        g2.nodes@[g.nodes@.len() as int].id.0 == g.nodes@.len(),
    ensures
        builder_wf(g2, keys.push(Some(key)), by_link, table),
{
    let k2 = keys.push(Some(key));
    reveal(builder_wf);
    reveal(keys_distinct);
    reveal(links_recorded);
    reveal(edges_consistent);
    assert forall|a: int, b: int| 0 <= a < b < k2.len() && k2[a] is Some implies #[trigger] k2[a] != #[trigger] k2[b] by {
        if b < keys.len() {
            assert(k2[a] == keys[a] && k2[b] == keys[b]);
        } else {
            assert(k2[a] == keys[a]);
        }
    }
    assert forall|a: int| 0 <= a < g2.nodes@.len() implies (#[trigger] g2.nodes@[a]).id.0 == a by {
        if a < g.nodes@.len() {
            assert(g2.nodes@[a] == g.nodes@[a]);
        }
    }
    assert forall|a: int| 0 <= a < g2.edges@.len() implies #[trigger] edge_ok(g2, k2, by_link, table, a) by {
        assert(edge_ok(g, keys, by_link, table, a));
        assert(g2.edges@[a] == g.edges@[a]);
        if a > 0 {
            assert(g2.edges@[a - 1] == g.edges@[a - 1]);
        }
    }
}

/// The node at point `key`: the existing one with that key, or a new
/// intersection.
fn node_for_point(g: &mut RoutingGraph, keys: &mut Vec<Option<PointKey>>, key: PointKey, Ghost(by_link): Ghost<AssocList<String, EdgeId>>, Ghost(table): Ghost<Seq<LinkEnds>>) -> (r: NodeId)
    requires
        builder_wf(*old(g), old(keys)@, by_link, table),
        old(g).nodes@.len() < u32::MAX,
    ensures
        builder_wf(*final(g), final(keys)@, by_link, table),
        (r.0 as int) < final(g).nodes@.len(),
        final(keys)@[r.0 as int] == Some(key),
        final(g).edges == old(g).edges,
        old(g).nodes@.len() <= final(g).nodes@.len() <= old(g).nodes@.len() + 1,
        forall|i: int| 0 <= i < old(g).nodes@.len() ==> final(g).nodes@[i] == old(g).nodes@[i],
        forall|i: int| 0 <= i < old(keys)@.len() ==> final(keys)@[i] == old(keys)@[i],
        forall|i: int| old(g).nodes@.len() <= i < final(g).nodes@.len() ==>
            (#[trigger] final(g).nodes@[i]).kind == NodeKind::Intersection && final(g).nodes@[i].legacy_ids@.len() == 0,
{
    proof { reveal(builder_wf); }
    match find_key(keys, key) {
        Some(i) => NodeId(i as u32),
        None => {
            let id = NodeId(g.nodes.len() as u32);
            let ghost old_g = *g;
            let ghost old_keys = keys@;
            g.nodes.push(GraphNode { id, kind: NodeKind::Intersection, legacy_ids: Vec::new() });
            keys.push(Some(key));
            proof { lemma_push_node(old_g, *g, old_keys, key, by_link, table); }
            id
        },
    }
}

/// The end points listed for link `l` (see `ends_of`).
fn link_ends(table: &Vec<LinkEnds>, l: &str) -> (r: Option<(PointKey, PointKey)>)
    ensures
        r == ends_of(table@, l@),
{
    let mut i: usize = 0;
    while i < table.len()
        invariant
            i <= table@.len(),
            ends_of(table@, l@) == ends_from(table@, l@, i as int),
        decreases table@.len() - i,
    {
        if crate::text::str_equal(table[i].link_id.as_str(), l) {
            return Some((table[i].start, table[i].end));
        }
        i = i + 1;
    }
    None
}

/// How a rebuilt graph may grow: old nodes, keys and edges stay, and new
/// nodes are intersections without ids.
#[verifier::opaque]
pub open spec fn grows_from(g0: RoutingGraph, k0: Seq<Option<PointKey>>, g: RoutingGraph, k: Seq<Option<PointKey>>) -> bool {
    &&& g0.nodes@.len() <= g.nodes@.len()
    &&& g0.edges@.len() <= g.edges@.len()
    &&& forall|i: int| 0 <= i < g0.nodes@.len() ==> g.nodes@[i] == g0.nodes@[i]
    &&& forall|i: int| 0 <= i < k0.len() ==> k[i] == k0[i]
    &&& forall|i: int| 0 <= i < g0.edges@.len() ==> g.edges@[i] == g0.edges@[i]
    &&& forall|i: int| g0.nodes@.len() <= i < g.nodes@.len() ==>
        (#[trigger] g.nodes@[i]).kind == NodeKind::Intersection && g.nodes@[i].legacy_ids@.len() == 0
}

/// Adds the edge of link `link` (of kind `kind`) between the nodes of its
/// end points.
fn push_edge(
    g: &mut RoutingGraph,
    keys: &mut Vec<Option<PointKey>>,
    by_link: &mut AssocList<String, EdgeId>,
    table: &Vec<LinkEnds>,
    link: &String,
    kind: EdgeKind,
) -> (r: EdgeId)
    requires
        builder_wf(*old(g), old(keys)@, *old(by_link), table@),
        ends_of(table@, link@) is Some,
        !old(by_link).map().contains_key(link@),
        old(g).nodes@.len() + 2 < u32::MAX,
        old(g).edges@.len() + 1 < u32::MAX,
    ensures
        builder_wf(*final(g), final(keys)@, *final(by_link), table@),
        grows_from(*old(g), old(keys)@, *final(g), final(keys)@),
        final(g).nodes@.len() <= old(g).nodes@.len() + 2,
        r.0 == old(g).edges@.len(),
        final(g).edges@.len() == old(g).edges@.len() + 1,
        named(final(g).edges@[r.0 as int], link@),
        final(g).edges@[r.0 as int].kind == kind,
        final(by_link).map() == old(by_link).map().insert(link@, r),
        entries_extend(*old(g), *final(g), seq![(Some(link@), kind)]),
{
    proof {
        reveal(builder_wf);
        reveal(grows_from);
    }
    let (start, end) = match link_ends(table, link.as_str()) {
        Some(e) => e,
        None => {
            assert(false);
            (PointKey { x: 0, y: 0 }, PointKey { x: 0, y: 0 })
        },
    };
    let ghost g0 = *g;
    let ghost k0 = keys@;
    let from = node_for_point(g, keys, start, Ghost(*by_link), Ghost(table@));
    let ghost g1 = *g;
    let ghost k1 = keys@;
    let to = node_for_point(g, keys, end, Ghost(*by_link), Ghost(table@));
    let id = EdgeId(g.edges.len() as u32);
    let ghost g2 = *g;
    let ghost k2 = keys@;
    g.edges.push(GraphEdge { id, from, to, kind, legacy_id: Some(link.clone()) });
    assert(entries_extend(g0, *g, seq![(Some(link@), kind)])) by {
        reveal(edge_entries);
        reveal(entries_extend);
        assert(edge_entries(*g) =~= edge_entries(g0) + seq![(Some(link@), kind)]);
    }
    let ghost b0 = *by_link;
    by_link.insert(link.clone(), id);
    proof {
        assert((from.0 as int) < g1.nodes@.len());
        assert(keys@[from.0 as int] == Some(start)) by {
            assert(k2[from.0 as int] == k1[from.0 as int]);
        }
        assert forall|i: int| g0.nodes@.len() <= i < g.nodes@.len() implies
            (#[trigger] g.nodes@[i]).kind == NodeKind::Intersection && g.nodes@[i].legacy_ids@.len() == 0 by {
            if i < g1.nodes@.len() {
                assert(g.nodes@[i] == g1.nodes@[i]);
            }
        }
        assert forall|i: int| 0 <= i < g0.nodes@.len() implies g.nodes@[i] == g0.nodes@[i] by {
            assert(g.nodes@[i] == g1.nodes@[i]);
        }
        assert forall|i: int| 0 <= i < k0.len() implies keys@[i] == k0[i] by {
            assert(keys@[i] == k1[i]);
        }
        reveal(links_recorded);
        reveal(edges_consistent);
        assert forall|l: Seq<char>| #[trigger] by_link.map().contains_key(l) implies
            (by_link.map()[l].0 as int) < g.edges@.len() && named(g.edges@[by_link.map()[l].0 as int], l) by {
            if l != link@ {
                assert(b0.map().contains_key(l));
                assert(g.edges@[by_link.map()[l].0 as int] == g2.edges@[by_link.map()[l].0 as int]);
            }
        }
        assert forall|i: int| 0 <= i < g.edges@.len() implies {
            &&& (#[trigger] g.edges@[i]).id.0 == i
            &&& (g.edges@[i].from.0 as int) < g.nodes@.len()
            &&& (g.edges@[i].to.0 as int) < g.nodes@.len()
        } by {
            if i < g2.edges@.len() {
                assert(g.edges@[i] == g2.edges@[i]);
            } else {
                assert(g.edges@[i].from == from && g.edges@[i].to == to && g.edges@[i].id == id);
            }
        }
        assert forall|i: int| 0 <= i < g.edges@.len() implies #[trigger] edge_ok(*g, keys@, *by_link, table@, i) by {
            if i < g2.edges@.len() {
                assert(edge_ok(g2, k2, b0, table@, i));
                assert(g.edges@[i] == g2.edges@[i]);
                if i > 0 {
                    assert(g.edges@[i - 1] == g2.edges@[i - 1]);
                }
                match g.edges@[i].legacy_id {
                    Some(x) => {
                        assert(x@ != link@);
                    },
                    None => {},
                }
            }
        }
    }
    id
}

/// Adds, after the named footway `edge_id` (the last edge), the footway
/// that runs the other way; edges of other kinds get none.
fn push_reverse_footway(g: &mut RoutingGraph, edge_id: EdgeId, Ghost(keys): Ghost<Seq<Option<PointKey>>>, Ghost(by_link): Ghost<AssocList<String, EdgeId>>, Ghost(table): Ghost<Seq<LinkEnds>>)
    requires
        builder_wf(*old(g), keys, by_link, table),
        edge_id.0 + 1 == old(g).edges@.len(),
        old(g).edges@[edge_id.0 as int].legacy_id is Some,
        old(g).edges@.len() + 1 < u32::MAX,
    ensures
        builder_wf(*final(g), keys, by_link, table),
        final(g).nodes == old(g).nodes,
        old(g).edges@[edge_id.0 as int].kind == EdgeKind::Footway ==> final(g).edges@ == old(g).edges@.push(GraphEdge {
            id: EdgeId(old(g).edges@.len() as u32),
            from: old(g).edges@[edge_id.0 as int].to,
            to: old(g).edges@[edge_id.0 as int].from,
            kind: EdgeKind::Footway,
            legacy_id: None,
        }),
        old(g).edges@[edge_id.0 as int].kind != EdgeKind::Footway ==> final(g).edges@ == old(g).edges@,
        entries_extend(*old(g), *final(g), if old(g).edges@[edge_id.0 as int].kind == EdgeKind::Footway {
            seq![(None::<Seq<char>>, EdgeKind::Footway)]
        } else {
            Seq::empty()
        }),
{
    proof { reveal(builder_wf); }
    let e = &g.edges[edge_id.0 as usize];
    if e.kind != EdgeKind::Footway {
        assert(entries_extend(*g, *g, Seq::empty())) by {
            reveal(entries_extend);
            assert(edge_entries(*g) + Seq::<(Option<Seq<char>>, EdgeKind)>::empty() =~= edge_entries(*g));
        }
        return;
    }
    let reverse = GraphEdge { id: EdgeId(g.edges.len() as u32), from: e.to, to: e.from, kind: EdgeKind::Footway, legacy_id: None };
    let ghost g0 = *g;
    g.edges.push(reverse);
    assert(entries_extend(g0, *g, seq![(None::<Seq<char>>, EdgeKind::Footway)])) by {
        reveal(edge_entries);
        reveal(entries_extend);
        assert(edge_entries(*g) =~= edge_entries(g0) + seq![(None::<Seq<char>>, EdgeKind::Footway)]);
    }
    proof {
        reveal(links_recorded);
        reveal(edges_consistent);
        assert forall|l: Seq<char>| #[trigger] by_link.map().contains_key(l) implies
            (by_link.map()[l].0 as int) < g.edges@.len() && named(g.edges@[by_link.map()[l].0 as int], l) by {
            assert(g.edges@[by_link.map()[l].0 as int] == g0.edges@[by_link.map()[l].0 as int]);
        }
        assert forall|i: int| 0 <= i < g.edges@.len() implies {
            &&& (#[trigger] g.edges@[i]).id.0 == i
            &&& (g.edges@[i].from.0 as int) < g.nodes@.len()
            &&& (g.edges@[i].to.0 as int) < g.nodes@.len()
        } by {
            if i < g0.edges@.len() {
                assert(g.edges@[i] == g0.edges@[i]);
            }
        }
        assert forall|i: int| 0 <= i < g.edges@.len() implies #[trigger] edge_ok(*g, keys, by_link, table, i) by {
            if i < g0.edges@.len() {
                assert(edge_ok(g0, keys, by_link, table, i));
                assert(g.edges@[i] == g0.edges@[i]);
                if i > 0 {
                    assert(g.edges@[i - 1] == g0.edges@[i - 1]);
                }
            } else {
                assert(g.edges@[i - 1] == g0.edges@[i - 1]);
            }
        }
    }
}

/// The number of links of the first `n` routes.
pub open spec fn links_before(routes: Seq<PersistedRoute>, n: int) -> nat
    decreases n,
{
    if n <= 0 { 0 } else { links_before(routes, n - 1) + routes[n - 1].links@.len() }
}

/// Whether link `l` is among the links of the first `n` routes.
pub open spec fn route_has_link(routes: Seq<PersistedRoute>, n: int, l: Seq<char>) -> bool {
    exists|r: int, k: int| 0 <= r < n && 0 <= k < routes[r].links@.len() && #[trigger] routes[r].links@[k]@ == l
}

/// The link count only grows with more routes.
proof fn lemma_links_before_monotone(routes: Seq<PersistedRoute>, a: int, b: int)
    requires
        a <= b,
    ensures
        links_before(routes, a) <= links_before(routes, b),
    decreases b - a,
{
    if a < b {
        lemma_links_before_monotone(routes, a, b - 1);
    }
}

/// Whether edge `i` is a road named after a link of `routes`.
pub open spec fn route_road(g: RoutingGraph, routes: Seq<PersistedRoute>, i: int) -> bool {
    &&& g.edges@[i].kind == EdgeKind::Road
    &&& g.edges@[i].legacy_id matches Some(x)
    &&& route_has_link(routes, routes.len() as int, x@)
}

/// Adds a road edge for every link of `routes` not built yet, route by
/// route, link by link.
fn add_route_links(
    g: &mut RoutingGraph,
    keys: &mut Vec<Option<PointKey>>,
    by_link: &mut AssocList<String, EdgeId>,
    table: &Vec<LinkEnds>,
    routes: &Vec<PersistedRoute>,
)
    requires
        builder_wf(*old(g), old(keys)@, *old(by_link), table@),
        forall|r: int, k: int| 0 <= r < routes@.len() && 0 <= k < routes@[r].links@.len() ==>
            ends_of(table@, #[trigger] routes@[r].links@[k]@) is Some,
        old(g).nodes@.len() + 2 * links_before(routes@, routes@.len() as int) + 2 < u32::MAX,
        old(g).edges@.len() + 2 * links_before(routes@, routes@.len() as int) + 1 < u32::MAX,
    ensures
        builder_wf(*final(g), final(keys)@, *final(by_link), table@),
        grows_from(*old(g), old(keys)@, *final(g), final(keys)@),
        final(g).nodes@.len() <= old(g).nodes@.len() + 2 * links_before(routes@, routes@.len() as int),
        final(g).edges@.len() <= old(g).edges@.len() + links_before(routes@, routes@.len() as int),
        forall|l: Seq<char>| #[trigger] old(by_link).map().contains_key(l) ==> final(by_link).map().contains_key(l) && final(by_link).map()[l] == old(by_link).map()[l],
        forall|l: Seq<char>| route_has_link(routes@, routes@.len() as int, l) ==> #[trigger] final(by_link).map().contains_key(l),
        forall|i: int| old(g).edges@.len() <= i < final(g).edges@.len() ==> #[trigger] route_road(*final(g), routes@, i),
        edge_entries(*final(g)) == link_steps(edge_entries(*old(g)), route_items(routes@, routes@.len() as int)),
{
    proof {
        reveal(builder_wf);
        reveal(grows_from);
    }
    let ghost g0 = *g;
    let ghost k0 = keys@;
    let ghost b0 = *by_link;
    let ghost e0 = edge_entries(*g);
    let n = routes.len();
    let mut r: usize = 0;
    while r < n
        invariant
            n == routes@.len(),
            r <= n,
            edge_entries(*g) == link_steps(e0, route_items(routes@, r as int)),
            builder_wf(*g, keys@, *by_link, table@),
            grows_from(g0, k0, *g, keys@),
            k0.len() == g0.nodes@.len(),
            forall|q: int, k: int| 0 <= q < routes@.len() && 0 <= k < routes@[q].links@.len() ==>
                ends_of(table@, #[trigger] routes@[q].links@[k]@) is Some,
            g0.nodes@.len() + 2 * links_before(routes@, n as int) + 2 < u32::MAX,
            g0.edges@.len() + 2 * links_before(routes@, n as int) + 1 < u32::MAX,
            g.nodes@.len() <= g0.nodes@.len() + 2 * links_before(routes@, r as int),
            g.edges@.len() <= g0.edges@.len() + links_before(routes@, r as int),
            forall|l: Seq<char>| #[trigger] b0.map().contains_key(l) ==> by_link.map().contains_key(l) && by_link.map()[l] == b0.map()[l],
            forall|l: Seq<char>| route_has_link(routes@, r as int, l) ==> #[trigger] by_link.map().contains_key(l),
            forall|i: int| g0.edges@.len() <= i < g.edges@.len() ==> #[trigger] route_road(*g, routes@, i),
        decreases n - r,
    {
        proof { lemma_links_before_monotone(routes@, r as int + 1, n as int); }
        let links = &routes[r].links;
        let m = links.len();
        let mut k: usize = 0;
        assert(route_items(routes@, r as int) + road_items(links@.subrange(0, 0)) =~= route_items(routes@, r as int));
        while k < m
            invariant
                n == routes@.len(),
                r < n,
                edge_entries(*g) == link_steps(e0, route_items(routes@, r as int) + road_items(links@.subrange(0, k as int))),
                m == routes@[r as int].links@.len(),
                links@ == routes@[r as int].links@,
                k <= m,
                builder_wf(*g, keys@, *by_link, table@),
                grows_from(g0, k0, *g, keys@),
                k0.len() == g0.nodes@.len(),
                forall|q: int, j: int| 0 <= q < routes@.len() && 0 <= j < routes@[q].links@.len() ==>
                    ends_of(table@, #[trigger] routes@[q].links@[j]@) is Some,
                g0.nodes@.len() + 2 * links_before(routes@, n as int) + 2 < u32::MAX,
                g0.edges@.len() + 2 * links_before(routes@, n as int) + 1 < u32::MAX,
                links_before(routes@, r as int + 1) <= links_before(routes@, n as int),
                g.nodes@.len() <= g0.nodes@.len() + 2 * (links_before(routes@, r as int) + k),
                g.edges@.len() <= g0.edges@.len() + links_before(routes@, r as int) + k,
                forall|l: Seq<char>| #[trigger] b0.map().contains_key(l) ==> by_link.map().contains_key(l) && by_link.map()[l] == b0.map()[l],
                forall|l: Seq<char>| route_has_link(routes@, r as int, l) ==> #[trigger] by_link.map().contains_key(l),
                forall|j: int| 0 <= j < k ==> #[trigger] by_link.map().contains_key(links@[j]@),
                forall|i: int| g0.edges@.len() <= i < g.edges@.len() ==> #[trigger] route_road(*g, routes@, i),
            decreases m - k,
        {
            let link = &links[k];
            assert(ends_of(table@, routes@[r as int].links@[k as int]@) is Some);
            proof {
                reveal(grows_from);
                lemma_builder_lens(*g, keys@, *by_link, table@);
            }
            let ghost ga = *g;
            let ghost ka = keys@;
            let ghost ba = *by_link;
            let ghost u = (link@, EdgeKind::Road);
            let ghost before = route_items(routes@, r as int) + road_items(links@.subrange(0, k as int));
            if by_link.get(link).is_none() {
                let ghost gb = *g;
                let ghost kb = keys@;
                let ghost bb = *by_link;
                let e = push_edge(g, keys, by_link, table, link, EdgeKind::Road);
                proof {
                    assert(step_tail(u) == seq![(Some(link@), EdgeKind::Road)]);
                    assert forall|i: int| 0 <= i < g0.nodes@.len() implies g.nodes@[i] == g0.nodes@[i] by {
                        assert(g.nodes@[i] == gb.nodes@[i]);
                    }
                    assert forall|i: int| 0 <= i < k0.len() implies keys@[i] == k0[i] by {
                        assert(keys@[i] == kb[i]);
                    }
                    assert forall|i: int| 0 <= i < g0.edges@.len() implies g.edges@[i] == g0.edges@[i] by {
                        assert(g.edges@[i] == gb.edges@[i]);
                    }
                    assert forall|i: int| g0.nodes@.len() <= i < g.nodes@.len() implies
                        (#[trigger] g.nodes@[i]).kind == NodeKind::Intersection && g.nodes@[i].legacy_ids@.len() == 0 by {
                        if i < gb.nodes@.len() {
                            assert(g.nodes@[i] == gb.nodes@[i]);
                        }
                    }
                    assert forall|i: int| g0.edges@.len() <= i < g.edges@.len() implies
                        #[trigger] route_road(*g, routes@, i) by {
                        if i < gb.edges@.len() {
                            assert(g.edges@[i] == gb.edges@[i]);
                            assert(route_road(gb, routes@, i));
                        } else {
                            assert(routes@[r as int].links@[k as int]@ == link@);
                            assert(route_has_link(routes@, routes@.len() as int, link@));
                        }
                    }
                }
            }
            proof {
                lemma_step_entries(ga, *g, ka, ba, table@, u);
                assert(route_items(routes@, r as int) + road_items(links@.subrange(0, k + 1)) =~= before.push(u));
                lemma_link_steps_push(e0, before, u);
            }
            k = k + 1;
        }
        proof {
            assert(links@.subrange(0, m as int) =~= links@);
            assert(route_items(routes@, r + 1) == route_items(routes@, r as int) + road_items(routes@[r as int].links@));
        }
        proof {
            assert forall|l: Seq<char>| route_has_link(routes@, r as int + 1, l) implies #[trigger] by_link.map().contains_key(l) by {
                let (q, j) = choose|q: int, j: int| 0 <= q < r + 1 && 0 <= j < routes@[q].links@.len() && #[trigger] routes@[q].links@[j]@ == l;
                if q == r {
                    assert(links@[j]@ == l);
                } else {
                    assert(route_has_link(routes@, r as int, l));
                }
            }
        }
        r = r + 1;
    }
}

/// `link:walk:`, the prefix of walking links.
pub open spec fn walk_link_prefix() -> Seq<char> {
    seq!['l', 'i', 'n', 'k', ':', 'w', 'a', 'l', 'k', ':']
}

/// Whether `l` names a walking link.
pub open spec fn is_walk_link(l: Seq<char>) -> bool {
    l.len() >= 10 && l.subrange(0, 10) == walk_link_prefix()
}

/// The first of the first `k` entries of `list` that names link `l`.
pub open spec fn first_listed(list: Seq<LinkKind>, l: Seq<char>, k: int) -> Option<int>
    decreases k,
{
    if k <= 0 {
        None
    } else {
        match first_listed(list, l, k - 1) {
            Some(j) => Some(j),
            None => if list[k - 1].link_id@ == l { Some(k - 1) } else { None },
        }
    }
}

/// A listed link is found among the entries up to its first one.
proof fn lemma_first_listed(list: Seq<LinkKind>, l: Seq<char>, k: int)
    requires
        0 <= k <= list.len(),
    ensures
        match first_listed(list, l, k) {
            Some(j) => 0 <= j < k && list[j].link_id@ == l,
            None => forall|j: int| 0 <= j < k ==> list[j].link_id@ != l,
        },
    decreases k,
{
    if k > 0 {
        lemma_first_listed(list, l, k - 1);
    }
}

/// Once listed among the first `a` entries, the first entry stays put.
proof fn lemma_first_listed_stable(list: Seq<LinkKind>, l: Seq<char>, a: int, b: int)
    requires
        0 <= a <= b,
        first_listed(list, l, a) is Some,
    ensures
        first_listed(list, l, b) == first_listed(list, l, a),
    decreases b - a,
{
    if a < b {
        lemma_first_listed_stable(list, l, a, b - 1);
    }
}

/// The edges added since `g0` are the listed links' edges, of the kind
/// their first entry among the first `k` lists, each walking footway
/// followed by its reverse.
#[verifier::opaque]
pub open spec fn new_edges_listed(g0: RoutingGraph, g: RoutingGraph, list: Seq<LinkKind>, k: int) -> bool {
    forall|i: int| g0.edges@.len() <= i < g.edges@.len() ==> match (#[trigger] g.edges@[i]).legacy_id {
        Some(x) => {
            &&& first_listed(list, x@, k) matches Some(j)
            &&& g.edges@[i].kind == list[j].kind
            &&& (is_walk_link(x@) && g.edges@[i].kind == EdgeKind::Footway) ==>
                i + 1 < g.edges@.len() && g.edges@[i + 1].legacy_id is None
        },
        None => true,
    }
}

/// Progress of `add_listed_links` after `k` entries of `list`.
#[verifier::opaque]
pub open spec fn listed_progress(
    g0: RoutingGraph,
    k0: Seq<Option<PointKey>>,
    b0: AssocList<String, EdgeId>,
    g: RoutingGraph,
    keys: Seq<Option<PointKey>>,
    by_link: AssocList<String, EdgeId>,
    table: Seq<LinkEnds>,
    list: Seq<LinkKind>,
    k: int,
) -> bool {
    &&& builder_wf(g, keys, by_link, table)
    &&& grows_from(g0, k0, g, keys)
    &&& k0.len() == g0.nodes@.len()
    &&& g.nodes@.len() <= g0.nodes@.len() + 2 * k
    &&& g.edges@.len() <= g0.edges@.len() + 2 * k
    &&& forall|l: Seq<char>| #[trigger] b0.map().contains_key(l) ==> by_link.map().contains_key(l) && by_link.map()[l] == b0.map()[l]
    &&& forall|j: int| 0 <= j < k ==> #[trigger] by_link.map().contains_key(list[j].link_id@)
    &&& new_edges_listed(g0, g, list, k)
}

/// Adds the edge of link `link` (of kind `kind`), followed, for a walking
/// footway, by the footway back (see `step_tail`).
fn push_listed_edge(
    g: &mut RoutingGraph,
    keys: &mut Vec<Option<PointKey>>,
    by_link: &mut AssocList<String, EdgeId>,
    table: &Vec<LinkEnds>,
    link: &String,
    kind: EdgeKind,
) -> (r: EdgeId)
    requires
        builder_wf(*old(g), old(keys)@, *old(by_link), table@),
        ends_of(table@, link@) is Some,
        !old(by_link).map().contains_key(link@),
        old(g).nodes@.len() + 2 < u32::MAX,
        old(g).edges@.len() + 2 < u32::MAX,
    ensures
        builder_wf(*final(g), final(keys)@, *final(by_link), table@),
        grows_from(*old(g), old(keys)@, *final(g), final(keys)@),
        final(g).nodes@.len() <= old(g).nodes@.len() + 2,
        r.0 == old(g).edges@.len(),
        final(g).edges@.len() == old(g).edges@.len() + step_tail((link@, kind)).len(),
        named(final(g).edges@[r.0 as int], link@),
        final(g).edges@[r.0 as int].kind == kind,
        (is_walk_link(link@) && kind == EdgeKind::Footway) ==> final(g).edges@[r.0 + 1].legacy_id is None,
        final(by_link).map() == old(by_link).map().insert(link@, r),
        entries_extend(*old(g), *final(g), step_tail((link@, kind))),
{
    proof {
        reveal_strlit("link:walk:");
        assert("link:walk:"@ =~= walk_link_prefix());
    }
    let ghost g0 = *g;
    let ghost k0 = keys@;
    let e = push_edge(g, keys, by_link, table, link, kind);
    let ghost gm = *g;
    let walk = starts_with(link.as_str(), "link:walk:");
    if walk {
        push_reverse_footway(g, e, Ghost(keys@), Ghost(*by_link), Ghost(table@));
        proof {
            reveal(entries_extend);
            if kind == EdgeKind::Footway {
                assert(seq![(Some(link@), kind)] + seq![(None::<Seq<char>>, EdgeKind::Footway)] =~= step_tail((link@, kind)));
                assert(edge_entries(g0) + seq![(Some(link@), kind)] + seq![(None::<Seq<char>>, EdgeKind::Footway)]
                    =~= edge_entries(g0) + step_tail((link@, kind)));
            } else {
                assert(edge_entries(g0) + seq![(Some(link@), kind)] + Seq::<(Option<Seq<char>>, EdgeKind)>::empty()
                    =~= edge_entries(g0) + step_tail((link@, kind)));
            }
        }
    }
    proof {
        reveal(grows_from);
        assert(g.edges@[e.0 as int] == gm.edges@[e.0 as int]);
        assert forall|i: int| 0 <= i < g0.edges@.len() implies g.edges@[i] == g0.edges@[i] by {
            assert(g.edges@[i] == gm.edges@[i]);
        }
    }
    e
}

/// Entries already listed keep their first listing one entry later.
proof fn lemma_listed_stable(g0: RoutingGraph, g: RoutingGraph, list: Seq<LinkKind>, k: int)
    requires
        0 <= k < list.len(),
        new_edges_listed(g0, g, list, k),
    ensures
        new_edges_listed(g0, g, list, k + 1),
{
    reveal(new_edges_listed);
    assert forall|i: int| g0.edges@.len() <= i < g.edges@.len() implies match (#[trigger] g.edges@[i]).legacy_id {
        Some(x) => {
            &&& first_listed(list, x@, k + 1) matches Some(j)
            &&& g.edges@[i].kind == list[j].kind
            &&& (is_walk_link(x@) && g.edges@[i].kind == EdgeKind::Footway) ==>
                i + 1 < g.edges@.len() && g.edges@[i + 1].legacy_id is None
        },
        None => true,
    } by {
        match g.edges@[i].legacy_id {
            Some(x) => {
                lemma_first_listed_stable(list, x@, k, k + 1);
            },
            None => {},
        }
    }
}

/// The edges `push_listed_edge` added for entry `k` keep the listed phase
/// listed.
proof fn lemma_listed_pushed(g0: RoutingGraph, gb: RoutingGraph, g: RoutingGraph, list: Seq<LinkKind>, k: int, e: int)
    requires
        0 <= k < list.len(),
        new_edges_listed(g0, gb, list, k),
        g0.edges@.len() <= gb.edges@.len(),
        e == gb.edges@.len(),
        g.edges@.len() == gb.edges@.len() + step_tail(use_view(list[k])).len(),
        forall|i: int| 0 <= i < gb.edges@.len() ==> g.edges@[i] == gb.edges@[i],
        named(g.edges@[e], list[k].link_id@),
        g.edges@[e].kind == list[k].kind,
        (is_walk_link(list[k].link_id@) && list[k].kind == EdgeKind::Footway) ==> g.edges@[e + 1].legacy_id is None,
        first_listed(list, list[k].link_id@, k + 1) == Some(k),
    ensures
        new_edges_listed(g0, g, list, k + 1),
{
    reveal(new_edges_listed);
    assert forall|i: int| g0.edges@.len() <= i < g.edges@.len() implies match (#[trigger] g.edges@[i]).legacy_id {
        Some(x) => {
            &&& first_listed(list, x@, k + 1) matches Some(j)
            &&& g.edges@[i].kind == list[j].kind
            &&& (is_walk_link(x@) && g.edges@[i].kind == EdgeKind::Footway) ==>
                i + 1 < g.edges@.len() && g.edges@[i + 1].legacy_id is None
        },
        None => true,
    } by {
        if i < gb.edges@.len() {
            assert(g.edges@[i] == gb.edges@[i]);
            match g.edges@[i].legacy_id {
                Some(x) => {
                    lemma_first_listed_stable(list, x@, k, k + 1);
                    if i + 1 < gb.edges@.len() {
                        assert(g.edges@[i + 1] == gb.edges@[i + 1]);
                    }
                },
                None => {},
            }
        } else if i == e {
        } else {
            assert(i == e + 1);
        }
    }
}

/// Handles entry `k` of `list` for `add_listed_links`.
#[verifier::rlimit(100)]
#[verifier::spinoff_prover]
fn add_listed_link(
    g: &mut RoutingGraph,
    keys: &mut Vec<Option<PointKey>>,
    by_link: &mut AssocList<String, EdgeId>,
    table: &Vec<LinkEnds>,
    list: &Vec<LinkKind>,
    k: usize,
    Ghost(g0): Ghost<RoutingGraph>,
    Ghost(k0): Ghost<Seq<Option<PointKey>>>,
    Ghost(b0): Ghost<AssocList<String, EdgeId>>,
)
    requires
        listed_progress(g0, k0, b0, *old(g), old(keys)@, *old(by_link), table@, list@, k as int),
        k < list@.len(),
        old(by_link).map().contains_key(list@[k as int].link_id@) || ends_of(table@, list@[k as int].link_id@) is Some,
        g0.nodes@.len() + 2 * list@.len() + 2 < u32::MAX,
        g0.edges@.len() + 2 * list@.len() + 1 < u32::MAX,
    ensures
        listed_progress(g0, k0, b0, *final(g), final(keys)@, *final(by_link), table@, list@, k + 1),
        old(by_link).map().contains_key(list@[k as int].link_id@) ==> *final(g) == *old(g),
        !old(by_link).map().contains_key(list@[k as int].link_id@) ==>
            entries_extend(*old(g), *final(g), step_tail(use_view(list@[k as int]))),
{
    proof {
        reveal(listed_progress);
        lemma_builder_lens(*g, keys@, *by_link, table@);
    }
    let (link, kind) = (&list[k].link_id, list[k].kind);
    let ghost gb = *g;
    let ghost kb = keys@;
    let ghost bb = *by_link;
    proof { lemma_first_listed(list@, link@, k as int); }
    if by_link.get(link).is_none() {
        proof {
            assert(gb.edges@.len() <= g0.edges@.len() + 2 * k) by {
                reveal(grows_from);
            }
        }
        let e = push_listed_edge(g, keys, by_link, table, link, kind);
        proof {
            assert(first_listed(list@, link@, k as int + 1) == Some(k as int));
            reveal(grows_from);
            assert(g0.edges@.len() <= gb.edges@.len());
            lemma_listed_pushed(g0, gb, *g, list@, k as int, e.0 as int);
            assert forall|i: int| 0 <= i < g0.nodes@.len() implies g.nodes@[i] == g0.nodes@[i] by {
                assert(g.nodes@[i] == gb.nodes@[i]);
            }
            assert forall|i: int| 0 <= i < k0.len() implies keys@[i] == k0[i] by {
                assert(keys@[i] == kb[i]);
            }
            assert forall|i: int| 0 <= i < g0.edges@.len() implies g.edges@[i] == g0.edges@[i] by {
                assert(g.edges@[i] == gb.edges@[i]);
            }
            assert forall|i: int| g0.nodes@.len() <= i < g.nodes@.len() implies
                (#[trigger] g.nodes@[i]).kind == NodeKind::Intersection && g.nodes@[i].legacy_ids@.len() == 0 by {
                if i < gb.nodes@.len() {
                    assert(g.nodes@[i] == gb.nodes@[i]);
                }
            }
            assert forall|l: Seq<char>| #[trigger] b0.map().contains_key(l) implies
                by_link.map().contains_key(l) && by_link.map()[l] == b0.map()[l] by {
                assert(bb.map().contains_key(l));
            }
            assert forall|j: int| 0 <= j < k + 1 implies #[trigger] by_link.map().contains_key(list@[j].link_id@) by {
                if j < k {
                    assert(bb.map().contains_key(list@[j].link_id@));
                }
            }
        }
    } else {
        proof {
            lemma_listed_stable(g0, *g, list@, k as int);
        }
    }
}

/// One use built onto a graph being rebuilt changes its edge entries as
/// `link_step` says.
proof fn lemma_step_entries(
    g0: RoutingGraph,
    g: RoutingGraph,
    keys0: Seq<Option<PointKey>>,
    b0: AssocList<String, EdgeId>,
    table: Seq<LinkEnds>,
    u: (Seq<char>, EdgeKind),
)
    requires
        builder_wf(g0, keys0, b0, table),
        b0.map().contains_key(u.0) ==> g == g0,
        !b0.map().contains_key(u.0) ==> entries_extend(g0, g, step_tail(u)),
    ensures
        edge_entries(g) == link_step(edge_entries(g0), u),
{
    lemma_recorded_iff_named(g0, keys0, b0, table, u.0);
    reveal(entries_extend);
}

/// Adds an edge of the listed kind for every listed link not built yet,
/// in list order; a walking link's footway is followed by its reverse.
fn add_listed_links(
    g: &mut RoutingGraph,
    keys: &mut Vec<Option<PointKey>>,
    by_link: &mut AssocList<String, EdgeId>,
    table: &Vec<LinkEnds>,
    list: &Vec<LinkKind>,
)
    requires
        builder_wf(*old(g), old(keys)@, *old(by_link), table@),
        forall|j: int| 0 <= j < list@.len() ==>
            old(by_link).map().contains_key((#[trigger] list@[j]).link_id@) || ends_of(table@, list@[j].link_id@) is Some,
        old(g).nodes@.len() + 2 * list@.len() + 2 < u32::MAX,
        old(g).edges@.len() + 2 * list@.len() + 1 < u32::MAX,
    ensures
        listed_progress(*old(g), old(keys)@, *old(by_link), *final(g), final(keys)@, *final(by_link), table@, list@, list@.len() as int),
        edge_entries(*final(g)) == link_steps(edge_entries(*old(g)), uses_view(list@)),
{
    let ghost g0 = *g;
    let ghost k0 = keys@;
    let ghost b0 = *by_link;
    let n = list.len();
    let mut k: usize = 0;
    proof {
        reveal(listed_progress);
        reveal(grows_from);
        reveal(new_edges_listed);
        lemma_builder_lens(*g, keys@, *by_link, table@);
        assert(uses_view(list@).subrange(0, 0) =~= Seq::<(Seq<char>, EdgeKind)>::empty());
    }
    while k < n
        invariant
            n == list@.len(),
            k <= n,
            listed_progress(g0, k0, b0, *g, keys@, *by_link, table@, list@, k as int),
            edge_entries(*g) == link_steps(edge_entries(g0), uses_view(list@).subrange(0, k as int)),
            forall|j: int| 0 <= j < list@.len() ==>
                b0.map().contains_key((#[trigger] list@[j]).link_id@) || ends_of(table@, list@[j].link_id@) is Some,
            g0.nodes@.len() + 2 * n + 2 < u32::MAX,
            g0.edges@.len() + 2 * n + 1 < u32::MAX,
        decreases n - k,
    {
        proof {
            reveal(listed_progress);
            assert(b0.map().contains_key(list@[k as int].link_id@) || ends_of(table@, list@[k as int].link_id@) is Some);
        }
        let ghost gb = *g;
        let ghost kb = keys@;
        let ghost bb = *by_link;
        assert(builder_wf(gb, kb, bb, table@)) by {
            reveal(listed_progress);
        }
        add_listed_link(g, keys, by_link, table, list, k, Ghost(g0), Ghost(k0), Ghost(b0));
        proof {
            let u = use_view(list@[k as int]);
            lemma_step_entries(gb, *g, kb, bb, table@, u);
            assert(uses_view(list@).subrange(0, k + 1) =~= uses_view(list@).subrange(0, k as int).push(u));
            lemma_link_steps_push(edge_entries(g0), uses_view(list@).subrange(0, k as int), u);
        }
        k = k + 1;
    }
    proof {
        assert(uses_view(list@).subrange(0, n as int) =~= uses_view(list@));
    }
}

/// A persisted stop: the route and the index of the link on it where it
/// stands, where along that link (start, end or in between), and the agents
/// waiting there in order.
#[derive(Debug, Clone)]
pub struct StopPlacement {
    pub id: String,
    pub route_id: String,
    pub link_index: usize,
    pub at: WalkPoint,
    pub waiting_agents: Vec<AgentId>,
}

/// The first route of `routes` with id `id`.
pub open spec fn route_index_from(routes: Seq<PersistedRoute>, id: Seq<char>, i: int) -> Option<int>
    decreases routes.len() - i,
{
    if i < 0 || i >= routes.len() {
        None
    } else if routes[i].id@ == id {
        Some(i)
    } else {
        route_index_from(routes, id, i + 1)
    }
}

/// The link stop `s` stands on, when its route and link index exist.
pub open spec fn stop_link(routes: Seq<PersistedRoute>, s: StopPlacement) -> Option<Seq<char>> {
    match route_index_from(routes, s.route_id@, 0) {
        Some(r) => if s.link_index < routes[r].links@.len() { Some(routes[r].links@[s.link_index as int]@) } else { None },
        None => None,
    }
}

/// The ids of the stops among the first `j` placed at node `n`, in order.
pub open spec fn stop_ids_at(stops: Seq<StopPlacement>, placed: Seq<NodeId>, n: NodeId, j: int) -> Seq<Seq<char>>
    decreases j,
{
    if j <= 0 {
        Seq::empty()
    } else {
        stop_ids_at(stops, placed, n, j - 1) + (if placed[j - 1] == n { seq![stops[j - 1].id@] } else { Seq::empty() })
    }
}

/// The agents waiting at the stops among the first `j` placed at node `n`,
/// stop by stop.
pub open spec fn waiting_at(stops: Seq<StopPlacement>, placed: Seq<NodeId>, n: NodeId, j: int) -> Seq<Seq<char>>
    decreases j,
{
    if j <= 0 {
        Seq::empty()
    } else {
        waiting_at(stops, placed, n, j - 1) + (if placed[j - 1] == n { queue_view(stops[j - 1].waiting_agents@) } else { Seq::empty() })
    }
}

/// The first route of `routes` with id `id`.
fn find_route(routes: &Vec<PersistedRoute>, id: &str) -> (r: Option<usize>)
    ensures
        match r {
            Some(i) => route_index_from(routes@, id@, 0) == Some(i as int) && i < routes@.len(),
            None => route_index_from(routes@, id@, 0) is None,
        },
{
    let mut i: usize = 0;
    while i < routes.len()
        invariant
            i <= routes@.len(),
            route_index_from(routes@, id@, 0) == route_index_from(routes@, id@, i as int),
        decreases routes@.len() - i,
    {
        if crate::text::str_equal(routes[i].id.as_str(), id) {
            return Some(i);
        }
        i = i + 1;
    }
    None
}

/// Changing node labels (kinds and ids) or adding a node without a key
/// keeps a graph being rebuilt consistent.
proof fn lemma_relabel(
    g: RoutingGraph,
    g2: RoutingGraph,
    keys: Seq<Option<PointKey>>,
    keys2: Seq<Option<PointKey>>,
    by_link: AssocList<String, EdgeId>,
    table: Seq<LinkEnds>,
)
    requires
        builder_wf(g, keys, by_link, table),
        g2.edges == g.edges,
        g2.nodes@.len() == keys2.len(),
        g.nodes@.len() <= g2.nodes@.len() <= u32::MAX,
        forall|i: int| 0 <= i < g2.nodes@.len() ==> (#[trigger] g2.nodes@[i]).id.0 == i,
        forall|i: int| 0 <= i < keys.len() ==> keys2[i] == keys[i],
        forall|i: int| keys.len() <= i < keys2.len() ==> keys2[i] is None,
    ensures
        builder_wf(g2, keys2, by_link, table),
{
    reveal(builder_wf);
    reveal(keys_distinct);
    reveal(links_recorded);
    reveal(edges_consistent);
    assert forall|a: int, b: int| 0 <= a < b < keys2.len() && keys2[a] is Some implies #[trigger] keys2[a] != #[trigger] keys2[b] by {
        assert(keys2[a] == keys[a]);
        if b < keys.len() {
            assert(keys2[b] == keys[b]);
        }
    }
    assert forall|a: int| 0 <= a < g2.edges@.len() implies #[trigger] edge_ok(g2, keys2, by_link, table, a) by {
        assert(edge_ok(g, keys, by_link, table, a));
        assert(keys2[g.edges@[a].from.0 as int] == keys[g.edges@[a].from.0 as int]);
        assert(keys2[g.edges@[a].to.0 as int] == keys[g.edges@[a].to.0 as int]);
    }
}

/// The node a stop on edge `e` stands at: the edge's start or end, or a
/// new node for a stop in between.
pub open spec fn stop_node_ok(g: RoutingGraph, keys: Seq<Option<PointKey>>, e: EdgeId, at: WalkPoint, n: NodeId, fresh_from: int) -> bool {
    match at {
        WalkPoint::Start => n == g.edges@[e.0 as int].from,
        WalkPoint::End => n == g.edges@[e.0 as int].to,
        WalkPoint::Along => n.0 >= fresh_from && keys[n.0 as int] is None,
    }
}

/// Places `stop` (see `stop_node_ok`), marks its node a transit stop
/// carrying the stop's id (after any earlier ids), and queues its waiting
/// agents there.
fn place_stop(
    g: &mut RoutingGraph,
    keys: &mut Vec<Option<PointKey>>,
    by_link: &AssocList<String, EdgeId>,
    Ghost(table): Ghost<Seq<LinkEnds>>,
    routes: &Vec<PersistedRoute>,
    stop: &StopPlacement,
    waiting: &mut WaitingAgents,
) -> (r: NodeId)
    requires
        builder_wf(*old(g), old(keys)@, *by_link, table),
        stop_link(routes@, *stop) matches Some(l) && by_link.map().contains_key(l),
        old(g).nodes@.len() < u32::MAX,
    ensures
        builder_wf(*final(g), final(keys)@, *by_link, table),
        final(g).edges == old(g).edges,
        stop_node_ok(*old(g), final(keys)@, by_link.map()[stop_link(routes@, *stop)->0], stop.at, r, old(g).nodes@.len() as int),
        final(g).nodes@.len() == old(g).nodes@.len() + (if stop.at == WalkPoint::Along { 1int } else { 0 }),
        (r.0 as int) < final(g).nodes@.len(),
        stop.at == WalkPoint::Along ==> r.0 == old(g).nodes@.len(),
        forall|i: int| 0 <= i < old(keys)@.len() ==> final(keys)@[i] == old(keys)@[i],
        forall|i: int| 0 <= i < old(g).nodes@.len() && i != r.0 ==> final(g).nodes@[i] == old(g).nodes@[i],
        ids_view(final(g).nodes@[r.0 as int].legacy_ids@) == (if (r.0 as int) < old(g).nodes@.len() {
            ids_view(old(g).nodes@[r.0 as int].legacy_ids@)
        } else {
            Seq::empty()
        }).push(stop.id@),
        final(g).nodes@[r.0 as int].kind == NodeKind::TransitStop,
        forall|n: NodeId| #[trigger] final(waiting).queue_at(n) == old(waiting).queue_at(n)
            + (if n == r { queue_view(stop.waiting_agents@) } else { Seq::empty() }),
{
    proof { lemma_builder_lens(*g, keys@, *by_link, table); }
    let ri = match find_route(routes, stop.route_id.as_str()) {
        Some(ri) => ri,
        None => {
            assert(false);
            0
        },
    };
    let link = &routes[ri].links[stop.link_index];
    let e = match by_link.get(link) {
        Some(e) => *e,
        None => {
            assert(false);
            EdgeId(0)
        },
    };
    proof {
        reveal(builder_wf);
        reveal(links_recorded);
    }
    let ghost g0 = *g;
    let ghost k0 = keys@;
    let node = match stop.at {
        WalkPoint::Start => g.edges[e.0 as usize].from,
        WalkPoint::End => g.edges[e.0 as usize].to,
        WalkPoint::Along => {
            let id = NodeId(g.nodes.len() as u32);
            g.nodes.push(GraphNode { id, kind: NodeKind::TransitStop, legacy_ids: Vec::new() });
            keys.push(None);
            id
        },
    };
    let ghost g1 = *g;
    let idx = node.0 as usize;
    let old_node = g.nodes.remove(idx);
    let mut ids = old_node.legacy_ids;
    let ghost ids0 = ids@;
    ids.push(stop.id.clone());
    assert(ids_view(ids@) =~= ids_view(ids0).push(stop.id@));
    g.nodes.insert(idx, GraphNode { id: old_node.id, kind: NodeKind::TransitStop, legacy_ids: ids });
    proof {
        assert(g.nodes@ =~= g1.nodes@.update(idx as int, g.nodes@[idx as int]));
        assert forall|i: int| 0 <= i < g.nodes@.len() implies (#[trigger] g.nodes@[i]).id.0 == i by {
            if i != idx {
                assert(g.nodes@[i] == g1.nodes@[i]);
                if i < g0.nodes@.len() {
                    assert(g1.nodes@[i] == g0.nodes@[i]);
                }
            }
        }
        lemma_relabel(g0, *g, k0, keys@, *by_link, table);
        assert forall|i: int| 0 <= i < g0.nodes@.len() && i != node.0 implies g.nodes@[i] == g0.nodes@[i] by {
            assert(g.nodes@[i] == g1.nodes@[i]);
        }
        if (node.0 as int) < g0.nodes@.len() {
            assert(g1.nodes@[node.0 as int] == g0.nodes@[node.0 as int]);
        }
    }
    let ghost w0 = *waiting;
    let agents = &stop.waiting_agents;
    let m = agents.len();
    let mut i: usize = 0;
    assert(agents@.subrange(0, 0) =~= Seq::<AgentId>::empty());
    while i < m
        invariant
            m == agents@.len(),
            i <= m,
            forall|n: NodeId| #[trigger] waiting.queue_at(n) == w0.queue_at(n)
                + (if n == node { queue_view(agents@.subrange(0, i as int)) } else { Seq::empty() }),
        decreases m - i,
    {
        let ghost wb = *waiting;
        waiting.enqueue(node, &agents[i]);
        proof {
            assert(queue_view(agents@.subrange(0, i + 1)) =~= queue_view(agents@.subrange(0, i as int)).push(agents@[i as int]@));
            assert forall|n: NodeId| #[trigger] waiting.queue_at(n) == w0.queue_at(n)
                + (if n == node { queue_view(agents@.subrange(0, i + 1)) } else { Seq::empty() }) by {
                assert(wb.queue_at(n) == w0.queue_at(n) + (if n == node { queue_view(agents@.subrange(0, i as int)) } else { Seq::empty() }));
                if n == node {
                    assert(w0.queue_at(n) + queue_view(agents@.subrange(0, i as int)).push(agents@[i as int]@)
                        =~= (w0.queue_at(n) + queue_view(agents@.subrange(0, i as int))).push(agents@[i as int]@));
                } else {
                    assert(n.0 != node.0);
                    assert(w0.queue_at(n) + Seq::<Seq<char>>::empty() =~= w0.queue_at(n));
                }
            }
        }
        i = i + 1;
    }
    assert(agents@.subrange(0, m as int) =~= agents@);
    node
}

/// The stops placed at a node depend only on the placements seen.
proof fn lemma_placed_prefix(stops: Seq<StopPlacement>, p1: Seq<NodeId>, p2: Seq<NodeId>, n: NodeId, j: int)
    requires
        j <= p1.len(),
        j <= p2.len(),
        forall|i: int| 0 <= i < j ==> p1[i] == p2[i],
    ensures
        stop_ids_at(stops, p1, n, j) == stop_ids_at(stops, p2, n, j),
        waiting_at(stops, p1, n, j) == waiting_at(stops, p2, n, j),
    decreases j,
{
    if j > 0 {
        lemma_placed_prefix(stops, p1, p2, n, j - 1);
    }
}

/// The labels of the nodes after the first `j` stops were placed at
/// `placed`: each node carries its earlier ids and then the ids of the
/// stops placed at it; a node with a stop is a transit stop.
pub open spec fn stops_labelled(g0: RoutingGraph, g: RoutingGraph, stops: Seq<StopPlacement>, placed: Seq<NodeId>, j: int) -> bool {
    forall|n: int| 0 <= n < g.nodes@.len() ==> {
        &&& ids_view((#[trigger] g.nodes@[n]).legacy_ids@) == (if n < g0.nodes@.len() { ids_view(g0.nodes@[n].legacy_ids@) } else { Seq::empty() })
            + stop_ids_at(stops, placed, NodeId(n as u32), j)
        &&& g.nodes@[n].kind == (if stop_ids_at(stops, placed, NodeId(n as u32), j).len() > 0 {
            NodeKind::TransitStop
        } else if n < g0.nodes@.len() {
            g0.nodes@[n].kind
        } else {
            NodeKind::Intersection
        })
    }
}

/// Places every stop in order (see `place_stop`), returning the node of
/// each.
fn place_stops(
    g: &mut RoutingGraph,
    keys: &mut Vec<Option<PointKey>>,
    by_link: &AssocList<String, EdgeId>,
    Ghost(table): Ghost<Seq<LinkEnds>>,
    routes: &Vec<PersistedRoute>,
    stops: &Vec<StopPlacement>,
    waiting: &mut WaitingAgents,
) -> (r: Vec<NodeId>)
    requires
        builder_wf(*old(g), old(keys)@, *by_link, table),
        forall|j: int| 0 <= j < stops@.len() ==> (stop_link(routes@, #[trigger] stops@[j]) matches Some(l) && by_link.map().contains_key(l)),
        old(g).nodes@.len() + stops@.len() < u32::MAX,
    ensures
        builder_wf(*final(g), final(keys)@, *by_link, table),
        final(g).edges == old(g).edges,
        r@.len() == stops@.len(),
        forall|j: int| 0 <= j < stops@.len() ==> stop_node_ok(*final(g), final(keys)@,
            by_link.map()[stop_link(routes@, #[trigger] stops@[j])->0], stops@[j].at, r@[j], old(g).nodes@.len() as int),
        forall|i: int| 0 <= i < old(keys)@.len() ==> final(keys)@[i] == old(keys)@[i],
        stops_labelled(*old(g), *final(g), stops@, r@, stops@.len() as int),
        forall|n: NodeId| #[trigger] final(waiting).queue_at(n) == old(waiting).queue_at(n) + waiting_at(stops@, r@, n, stops@.len() as int),
        forall|a: int, b: int| 0 <= a < b < stops@.len() && stops@[a].at == WalkPoint::Along && stops@[b].at == WalkPoint::Along
            ==> #[trigger] r@[a] != #[trigger] r@[b],
{
    let ghost g0 = *g;
    let ghost k0 = keys@;
    let ghost w0 = *waiting;
    proof { lemma_builder_lens(*g, keys@, *by_link, table); }
    let mut placed: Vec<NodeId> = Vec::new();
    let n = stops.len();
    let mut j: usize = 0;
    while j < n
        invariant
            n == stops@.len(),
            j <= n,
            builder_wf(*g, keys@, *by_link, table),
            g.edges == g0.edges,
            g0.nodes@.len() <= g.nodes@.len() <= g0.nodes@.len() + j,
            g0.nodes@.len() + n < u32::MAX,
            keys@.len() == g.nodes@.len(),
            k0.len() == g0.nodes@.len(),
            placed@.len() == j,
            forall|q: int| 0 <= q < stops@.len() ==> (stop_link(routes@, #[trigger] stops@[q]) matches Some(l) && by_link.map().contains_key(l)),
            forall|q: int| 0 <= q < j ==> stop_node_ok(*g, keys@,
                by_link.map()[stop_link(routes@, #[trigger] stops@[q])->0], stops@[q].at, placed@[q], g0.nodes@.len() as int),
            forall|q: int| 0 <= q < j ==> (placed@[q].0 as int) < g.nodes@.len(),
            forall|i: int| 0 <= i < k0.len() ==> keys@[i] == k0[i],
            stops_labelled(g0, *g, stops@, placed@, j as int),
            forall|m: NodeId| #[trigger] waiting.queue_at(m) == w0.queue_at(m) + waiting_at(stops@, placed@, m, j as int),
            forall|a: int, b: int| 0 <= a < b < j && stops@[a].at == WalkPoint::Along && stops@[b].at == WalkPoint::Along
                ==> #[trigger] placed@[a] != #[trigger] placed@[b],
        decreases n - j,
    {
        let ghost gb = *g;
        let ghost kb = keys@;
        let ghost pb = placed@;
        let ghost wb = *waiting;
        let stop = &stops[j];
        assert(stop_link(routes@, stops@[j as int]) matches Some(l) && by_link.map().contains_key(l));
        let node = place_stop(g, keys, by_link, Ghost(table), routes, stop, waiting);
        placed.push(node);
        proof {
            assert forall|a: int, b: int| 0 <= a < b < j + 1 && stops@[a].at == WalkPoint::Along && stops@[b].at == WalkPoint::Along
                implies #[trigger] placed@[a] != #[trigger] placed@[b] by {
                assert(placed@[a] == pb[a]);
                if b < j {
                    assert(placed@[b] == pb[b]);
                } else {
                    assert((pb[a].0 as int) < gb.nodes@.len());
                }
            }
            lemma_builder_lens(*g, keys@, *by_link, table);
            assert forall|q: int| 0 <= q < j + 1 implies stop_node_ok(*g, keys@,
                by_link.map()[stop_link(routes@, #[trigger] stops@[q])->0], stops@[q].at, placed@[q], g0.nodes@.len() as int) by {
                if q < j {
                    assert(stop_node_ok(gb, kb, by_link.map()[stop_link(routes@, stops@[q])->0], stops@[q].at, pb[q], g0.nodes@.len() as int));
                    assert(placed@[q] == pb[q]);
                    if stops@[q].at == WalkPoint::Along {
                        assert(keys@[pb[q].0 as int] == kb[pb[q].0 as int]);
                    }
                }
            }
            assert forall|q: int| 0 <= q < j + 1 implies (placed@[q].0 as int) < g.nodes@.len() by {
                if q < j {
                    assert(placed@[q] == pb[q]);
                }
            }
            assert forall|i: int| 0 <= i < k0.len() implies keys@[i] == k0[i] by {
                assert(keys@[i] == kb[i]);
            }
            assert forall|m: int| 0 <= m < g.nodes@.len() implies {
                &&& ids_view((#[trigger] g.nodes@[m]).legacy_ids@) == (if m < g0.nodes@.len() { ids_view(g0.nodes@[m].legacy_ids@) } else { Seq::empty() })
                    + stop_ids_at(stops@, placed@, NodeId(m as u32), j + 1)
                &&& g.nodes@[m].kind == (if stop_ids_at(stops@, placed@, NodeId(m as u32), j + 1).len() > 0 {
                    NodeKind::TransitStop
                } else if m < g0.nodes@.len() {
                    g0.nodes@[m].kind
                } else {
                    NodeKind::Intersection
                })
            } by {
                lemma_placed_prefix(stops@, pb, placed@, NodeId(m as u32), j as int);
                let before = stop_ids_at(stops@, pb, NodeId(m as u32), j as int);
                let base = if m < g0.nodes@.len() { ids_view(g0.nodes@[m].legacy_ids@) } else { Seq::<Seq<char>>::empty() };
                if m < gb.nodes@.len() {
                    assert(ids_view(gb.nodes@[m].legacy_ids@) == base + before);
                }
                if m == node.0 {
                    assert(base + before.push(stops@[j as int].id@) =~= (base + before).push(stops@[j as int].id@));
                    assert(stop_ids_at(stops@, placed@, NodeId(m as u32), j + 1) =~= before.push(stops@[j as int].id@));
                    if m >= gb.nodes@.len() {
                        assert(m >= g0.nodes@.len());
                        assert(before.len() == 0) by {
                            lemma_no_stops_at_fresh(stops@, pb, NodeId(m as u32), j as int);
                        }
                        assert(before =~= Seq::<Seq<char>>::empty());
                    }
                } else {
                    assert(g.nodes@[m] == gb.nodes@[m]);
                    assert(stop_ids_at(stops@, placed@, NodeId(m as u32), j + 1) =~= before);
                }
            }
            assert forall|m: NodeId| #[trigger] waiting.queue_at(m) == w0.queue_at(m) + waiting_at(stops@, placed@, m, j + 1) by {
                lemma_placed_prefix(stops@, pb, placed@, m, j as int);
                assert(wb.queue_at(m) == w0.queue_at(m) + waiting_at(stops@, pb, m, j as int));
                if m == node {
                    assert(w0.queue_at(m) + waiting_at(stops@, pb, m, j as int) + queue_view(stops@[j as int].waiting_agents@)
                        =~= w0.queue_at(m) + (waiting_at(stops@, pb, m, j as int) + queue_view(stops@[j as int].waiting_agents@)));
                } else {
                    assert(waiting_at(stops@, placed@, m, j + 1) =~= waiting_at(stops@, pb, m, j as int) + Seq::<Seq<char>>::empty());
                    assert(w0.queue_at(m) + waiting_at(stops@, pb, m, j as int) + Seq::<Seq<char>>::empty()
                        =~= w0.queue_at(m) + waiting_at(stops@, pb, m, j as int));
                }
            }
        }
        j = j + 1;
    }
    placed
}

/// No stop was placed at a node that did not exist yet.
proof fn lemma_no_stops_at_fresh(stops: Seq<StopPlacement>, placed: Seq<NodeId>, n: NodeId, j: int)
    requires
        j <= placed.len(),
        forall|q: int| 0 <= q < j ==> placed[q] != n,
    ensures
        stop_ids_at(stops, placed, n, j).len() == 0,
    decreases j,
{
    if j > 0 {
        lemma_no_stops_at_fresh(stops, placed, n, j - 1);
    }
}

/// What the snapshot of an agent says about the links it uses: the link it
/// walks on (if walking), its plan, and the steps of its active route (none
/// without one).
#[derive(Debug, Clone)]
pub struct AgentLinkUses {
    pub walking_link: Option<String>,
    pub plan: Vec<PlanStage>,
    pub route_steps: Vec<PersistedRouteStep>,
}

/// A link and the kind of edge it needs.
#[derive(Debug, Clone)]
pub struct LinkKind {
    pub link_id: String,
    pub kind: EdgeKind,
}

impl Keyed for LinkKind {
    open spec fn sort_key(&self) -> Seq<char> {
        self.link_id@
    }

    fn key_str(&self) -> (r: &str) {
        self.link_id.as_str()
    }
}

/// The uses of plan stages `plan`: each walking stage's link, as a footway.
pub open spec fn plan_uses(plan: Seq<PlanStage>) -> Seq<(Seq<char>, EdgeKind)>
    decreases plan.len(),
{
    if plan.len() == 0 {
        Seq::empty()
    } else {
        plan_uses(plan.drop_last()) + match plan.last() {
            PlanStage::WalkToStop { link_id, .. } => seq![(link_id@, EdgeKind::Footway)],
            PlanStage::WalkToActivity { link_id, .. } => seq![(link_id@, EdgeKind::Footway)],
            _ => Seq::empty(),
        }
    }
}

/// The uses of route steps: each step with a key, as the kind of edge its
/// mode moves on.
pub open spec fn step_uses(steps: Seq<PersistedRouteStep>) -> Seq<(Seq<char>, EdgeKind)>
    decreases steps.len(),
{
    if steps.len() == 0 {
        Seq::empty()
    } else {
        step_uses(steps.drop_last()) + (if steps.last().canonical_edge_key@.len() > 0 {
            seq![(steps.last().canonical_edge_key@, edge_kind_for_mode_spec(steps.last().mode))]
        } else {
            Seq::empty()
        })
    }
}

/// The link uses of one agent: its walking link, its plan, its route.
pub open spec fn agent_uses(a: AgentLinkUses) -> Seq<(Seq<char>, EdgeKind)> {
    (match a.walking_link {
        Some(l) => seq![(l@, EdgeKind::Footway)],
        None => Seq::empty(),
    }) + plan_uses(a.plan@) + step_uses(a.route_steps@)
}

/// The link uses of the first `n` agents.
pub open spec fn all_uses(agents: Seq<AgentLinkUses>, n: int) -> Seq<(Seq<char>, EdgeKind)>
    decreases n,
{
    if n <= 0 { Seq::empty() } else { all_uses(agents, n - 1) + agent_uses(agents[n - 1]) }
}

/// The link a walk stage walks.
pub open spec fn walk_stage_link(stage: PlanStage) -> Option<Seq<char>> {
    match stage {
        PlanStage::WalkToStop { link_id, .. } => Some(link_id@),
        PlanStage::WalkToActivity { link_id, .. } => Some(link_id@),
        _ => None,
    }
}

/// Every walk stage of a plan has its link among the plan's uses, as a
/// footway.
proof fn lemma_plan_walk_links_used(plan: Seq<PlanStage>, j: int)
    requires
        0 <= j < plan.len(),
        walk_stage_link(plan[j]) is Some,
    ensures
        plan_uses(plan).contains((walk_stage_link(plan[j])->0, EdgeKind::Footway)),
    decreases plan.len(),
{
    let u = (walk_stage_link(plan[j])->0, EdgeKind::Footway);
    let p = plan.drop_last();
    if j < plan.len() - 1 {
        assert(p[j] == plan[j]);
        lemma_plan_walk_links_used(p, j);
        let pu = plan_uses(p);
        let k = choose|k: int| 0 <= k < pu.len() && #[trigger] pu[k] == u;
        assert(plan_uses(plan)[k] == u);
    } else {
        assert(plan_uses(plan)[plan_uses(plan).len() - 1] == u);
    }
}

/// The uses of the first `n` agents include every use of each of them.
proof fn lemma_all_uses_include(agents: Seq<AgentLinkUses>, n: int, i: int, u: (Seq<char>, EdgeKind))
    requires
        0 <= i < n,
        agent_uses(agents[i]).contains(u),
    ensures
        all_uses(agents, n).contains(u),
    decreases n,
{
    if i < n - 1 {
        lemma_all_uses_include(agents, n - 1, i, u);
        let prev = all_uses(agents, n - 1);
        let k = choose|k: int| 0 <= k < prev.len() && #[trigger] prev[k] == u;
        assert(all_uses(agents, n)[k] == u);
    } else {
        let au = agent_uses(agents[i]);
        let k = choose|k: int| 0 <= k < au.len() && #[trigger] au[k] == u;
        assert(all_uses(agents, n)[all_uses(agents, n - 1).len() + k] == u);
    }
}

/// Every link a persisted agent walks to a stop or an activity is among
/// the links the rebuilt graph must hold, as a footway: each walk stage of
/// an agent's plan has its link among the agents' uses (which
/// `persisted_walking_links` lists).
pub proof fn lemma_walk_stage_links_persisted(agents: Seq<AgentLinkUses>, i: int, j: int)
    requires
        0 <= i < agents.len(),
        0 <= j < agents[i].plan@.len(),
        walk_stage_link(agents[i].plan@[j]) is Some,
    ensures
        all_uses(agents, agents.len() as int).contains((walk_stage_link(agents[i].plan@[j])->0, EdgeKind::Footway)),
{
    let a = agents[i];
    let u = (walk_stage_link(a.plan@[j])->0, EdgeKind::Footway);
    lemma_plan_walk_links_used(a.plan@, j);
    let w: Seq<(Seq<char>, EdgeKind)> = match a.walking_link {
        Some(l) => seq![(l@, EdgeKind::Footway)],
        None => Seq::empty(),
    };
    let pu = plan_uses(a.plan@);
    let k = choose|k: int| 0 <= k < pu.len() && #[trigger] pu[k] == u;
    assert(agent_uses(a)[w.len() + k] == u);
    lemma_all_uses_include(agents, agents.len() as int, i, u);
}

/// Whether some link is used with two different kinds.
pub open spec fn uses_conflict(uses: Seq<(Seq<char>, EdgeKind)>) -> bool {
    exists|i: int, j: int| 0 <= i < uses.len() && 0 <= j < uses.len() && #[trigger] uses[i].0 == #[trigger] uses[j].0 && uses[i].1 != uses[j].1
}

/// No route step uses the retired tram mode.
pub open spec fn no_tram_steps(agents: Seq<AgentLinkUses>) -> bool {
    forall|a: int, k: int| 0 <= a < agents.len() && 0 <= k < agents[a].route_steps@.len() ==>
        (#[trigger] agents[a].route_steps@[k]).mode != ModeState::OnTram
}

/// A link use as characters and kind.
pub open spec fn use_view(u: LinkKind) -> (Seq<char>, EdgeKind) {
    (u.link_id@, u.kind)
}

/// Appends the uses of `a` to `out`.
fn push_agent_uses(out: &mut Vec<LinkKind>, a: &AgentLinkUses)
    requires
        forall|k: int| 0 <= k < a.route_steps@.len() ==> (#[trigger] a.route_steps@[k]).mode != ModeState::OnTram,
    ensures
        final(out)@.map_values(|u: LinkKind| use_view(u)) == old(out)@.map_values(|u: LinkKind| use_view(u)) + agent_uses(*a),
{
    let ghost start = out@.map_values(|u: LinkKind| use_view(u));
    match &a.walking_link {
        Some(l) => {
            out.push(LinkKind { link_id: l.clone(), kind: EdgeKind::Footway });
        },
        None => {},
    }
    let ghost after_walk = out@.map_values(|u: LinkKind| use_view(u));
    assert(after_walk =~= start + (match a.walking_link {
        Some(l) => seq![(l@, EdgeKind::Footway)],
        None => Seq::<(Seq<char>, EdgeKind)>::empty(),
    }));
    let mut i: usize = 0;
    while i < a.plan.len()
        invariant
            i <= a.plan@.len(),
            out@.map_values(|u: LinkKind| use_view(u)) == after_walk + plan_uses(a.plan@.subrange(0, i as int)),
        decreases a.plan@.len() - i,
    {
        let ghost before = out@.map_values(|u: LinkKind| use_view(u));
        assert(a.plan@.subrange(0, i + 1).drop_last() =~= a.plan@.subrange(0, i as int));
        assert(a.plan@.subrange(0, i + 1).last() == a.plan@[i as int]);
        let ghost part: Seq<(Seq<char>, EdgeKind)> = match a.plan@[i as int] {
            PlanStage::WalkToStop { link_id, .. } => seq![(link_id@, EdgeKind::Footway)],
            PlanStage::WalkToActivity { link_id, .. } => seq![(link_id@, EdgeKind::Footway)],
            _ => Seq::empty(),
        };
        match &a.plan[i] {
            PlanStage::WalkToStop { link_id, .. } => {
                out.push(LinkKind { link_id: link_id.clone(), kind: EdgeKind::Footway });
            },
            PlanStage::WalkToActivity { link_id, .. } => {
                out.push(LinkKind { link_id: link_id.clone(), kind: EdgeKind::Footway });
            },
            _ => {},
        }
        assert(out@.map_values(|u: LinkKind| use_view(u)) =~= before + part);
        assert(after_walk + plan_uses(a.plan@.subrange(0, i as int)) + part =~= after_walk + plan_uses(a.plan@.subrange(0, i + 1)));
        i = i + 1;
    }
    assert(a.plan@.subrange(0, a.plan@.len() as int) =~= a.plan@);
    let ghost after_plan = out@.map_values(|u: LinkKind| use_view(u));
    let mut k: usize = 0;
    while k < a.route_steps.len()
        invariant
            k <= a.route_steps@.len(),
            forall|q: int| 0 <= q < a.route_steps@.len() ==> (#[trigger] a.route_steps@[q]).mode != ModeState::OnTram,
            out@.map_values(|u: LinkKind| use_view(u)) == after_plan + step_uses(a.route_steps@.subrange(0, k as int)),
        decreases a.route_steps@.len() - k,
    {
        let step = &a.route_steps[k];
        let ghost before = out@.map_values(|u: LinkKind| use_view(u));
        assert(a.route_steps@.subrange(0, k + 1).drop_last() =~= a.route_steps@.subrange(0, k as int));
        assert(a.route_steps@.subrange(0, k + 1).last() == a.route_steps@[k as int]);
        let ghost part: Seq<(Seq<char>, EdgeKind)> = if step.canonical_edge_key@.len() > 0 {
            seq![(step.canonical_edge_key@, edge_kind_for_mode_spec(step.mode))]
        } else {
            Seq::empty()
        };
        if step.canonical_edge_key.unicode_len() > 0 {
            let kind = edge_kind_for_mode(step.mode);
            out.push(LinkKind { link_id: step.canonical_edge_key.clone(), kind });
        }
        assert(out@.map_values(|u: LinkKind| use_view(u)) =~= before + part);
        assert(after_plan + step_uses(a.route_steps@.subrange(0, k as int)) + part =~= after_plan + step_uses(a.route_steps@.subrange(0, k + 1)));
        k = k + 1;
    }
    assert(a.route_steps@.subrange(0, a.route_steps@.len() as int) =~= a.route_steps@);
    assert(out@.map_values(|u: LinkKind| use_view(u)) =~= start + agent_uses(*a));
}

/// The views of link uses.
pub open spec fn uses_view(v: Seq<LinkKind>) -> Seq<(Seq<char>, EdgeKind)> {
    v.map_values(|u: LinkKind| use_view(u))
}

/// The index of the entry for link `l`.
fn find_link(v: &Vec<LinkKind>, l: &str) -> (r: Option<usize>)
    ensures
        match r {
            Some(i) => i < v@.len() && v@[i as int].link_id@ == l@,
            None => forall|i: int| 0 <= i < v@.len() ==> (#[trigger] v@[i]).link_id@ != l@,
        },
{
    let mut i: usize = 0;
    while i < v.len()
        invariant
            i <= v@.len(),
            forall|j: int| 0 <= j < i ==> (#[trigger] v@[j]).link_id@ != l@,
        decreases v@.len() - i,
    {
        if str_equal(v[i].link_id.as_str(), l) {
            return Some(i);
        }
        i = i + 1;
    }
    None
}

/// The links the agents of a snapshot use, each once with the kind of edge
/// it needs, sorted by link: walked links and the links of walking plan
/// stages are footways; route steps need the kind of their mode. `None`
/// when some link is used with two different kinds: such a snapshot is
/// refused, as restoring it would have to give one link two edge kinds.
pub fn persisted_walking_links(agents: &Vec<AgentLinkUses>) -> (r: Option<Vec<LinkKind>>)
    requires
        no_tram_steps(agents@),
    ensures
        match r {
            Some(v) => {
                &&& !uses_conflict(all_uses(agents@, agents@.len() as int))
                &&& ids_sorted(v@)
                &&& v@.len() <= all_uses(agents@, agents@.len() as int).len()
                &&& forall|u: (Seq<char>, EdgeKind)| uses_view(v@).contains(u) <==> all_uses(agents@, agents@.len() as int).contains(u)
            },
            None => uses_conflict(all_uses(agents@, agents@.len() as int)),
        },
        r matches Some(v) ==> forall|i: int, j: int| 0 <= i < agents@.len() && 0 <= j < agents@[i].plan@.len()
            && walk_stage_link(#[trigger] agents@[i].plan@[j]) is Some
            ==> uses_view(v@).contains((walk_stage_link(agents@[i].plan@[j])->0, EdgeKind::Footway)),
{
    let mut uses: Vec<LinkKind> = Vec::new();
    let mut a: usize = 0;
    while a < agents.len()
        invariant
            a <= agents@.len(),
            no_tram_steps(agents@),
            uses_view(uses@) == all_uses(agents@, a as int),
        decreases agents@.len() - a,
    {
        proof {
            assert forall|k: int| 0 <= k < agents@[a as int].route_steps@.len() implies
                (#[trigger] agents@[a as int].route_steps@[k]).mode != ModeState::OnTram by {
                assert(agents@[a as int].route_steps@[k] == agents@[a as int].route_steps@[k]);
            }
        }
        push_agent_uses(&mut uses, &agents[a]);
        a = a + 1;
    }
    let ghost all = uses_view(uses@);
    let mut out: Vec<LinkKind> = Vec::new();
    let n = uses.len();
    let mut i: usize = 0;
    while i < n
        invariant
            n == uses@.len(),
            all == uses_view(uses@),
            all == all_uses(agents@, agents@.len() as int),
            i <= n,
            out@.len() <= i,
            ids_sorted(out@),
            forall|u: (Seq<char>, EdgeKind)| uses_view(out@).contains(u) <==> all.subrange(0, i as int).contains(u),
            forall|p: int, q: int| 0 <= p < i && 0 <= q < i && #[trigger] all[p].0 == #[trigger] all[q].0 ==> all[p].1 == all[q].1,
        decreases n - i,
    {
        let u = &uses[i];
        assert(all[i as int] == use_view(uses@[i as int]));
        let ghost pre = all.subrange(0, i as int);
        let ghost pre1 = all.subrange(0, i + 1);
        assert(pre1 =~= pre.push(all[i as int]));
        match find_link(&out, u.link_id.as_str()) {
            Some(idx) => {
                let ghost existing = use_view(out@[idx as int]);
                assert(uses_view(out@)[idx as int] == existing);
                assert(uses_view(out@).contains(existing));
                let ghost p = choose|p: int| 0 <= p < pre.len() && pre[p] == existing;
                if out[idx].kind != u.kind {
                    proof {
                        assert(all[p].0 == all[i as int].0 && all[p].1 != all[i as int].1);
                    }
                    return None;
                }
                proof {
                    assert forall|v: (Seq<char>, EdgeKind)| uses_view(out@).contains(v) <==> pre1.contains(v) by {
                        if pre1.contains(v) {
                            let q = choose|q: int| 0 <= q < pre1.len() && pre1[q] == v;
                            if q == i {
                                assert(v == existing);
                            } else {
                                assert(pre[q] == v);
                            }
                        }
                        if pre.contains(v) {
                            let q = choose|q: int| 0 <= q < pre.len() && pre[q] == v;
                            assert(pre1[q] == v);
                        }
                    }
                    assert forall|x: int, y: int| 0 <= x < i + 1 && 0 <= y < i + 1 && #[trigger] all[x].0 == #[trigger] all[y].0 implies all[x].1 == all[y].1 by {
                        if x == i && y < i {
                            assert(all[p].0 == all[y].0);
                        } else if y == i && x < i {
                            assert(all[p].0 == all[x].0);
                        }
                    }
                }
            },
            None => {
                let ghost before = uses_view(out@);
                let ghost old_out = out@;
                let x = LinkKind { link_id: u.link_id.clone(), kind: u.kind };
                assert(use_view(x) == all[i as int]);
                insert_by_key(&mut out, x);
                proof {
                    assert forall|v: (Seq<char>, EdgeKind)| uses_view(out@).contains(v) <==> pre1.contains(v) by {
                        if uses_view(out@).contains(v) {
                            let q = choose|q: int| 0 <= q < out@.len() && uses_view(out@)[q] == v;
                            assert(use_view(out@[q]) == v);
                            assert(out@.contains(out@[q]));
                            if old_out.contains(out@[q]) {
                                let w = choose|w: int| 0 <= w < old_out.len() && old_out[w] == out@[q];
                                assert(before[w] == v);
                                assert(before.contains(v));
                                let z = choose|z: int| 0 <= z < pre.len() && pre[z] == v;
                                assert(pre1[z] == v);
                            } else {
                                assert(out@[q] == x);
                                assert(pre1[i as int] == v);
                            }
                        }
                        if pre1.contains(v) {
                            let q = choose|q: int| 0 <= q < pre1.len() && pre1[q] == v;
                            if q < i {
                                assert(pre[q] == v);
                                assert(before.contains(v));
                                let w = choose|w: int| 0 <= w < before.len() && before[w] == v;
                                assert(out@.contains(old_out[w]));
                                let z = choose|z: int| 0 <= z < out@.len() && out@[z] == old_out[w];
                                assert(uses_view(out@)[z] == v);
                            } else {
                                assert(v == use_view(x));
                                assert(out@.contains(x));
                                let z = choose|z: int| 0 <= z < out@.len() && out@[z] == x;
                                assert(uses_view(out@)[z] == v);
                            }
                        }
                    }
                    assert forall|x1: int, y1: int| 0 <= x1 < i + 1 && 0 <= y1 < i + 1 && #[trigger] all[x1].0 == #[trigger] all[y1].0 implies all[x1].1 == all[y1].1 by {
                        if x1 != y1 && (x1 == i || y1 == i) {
                            let other = if x1 == i { y1 } else { x1 };
                            assert(pre[other] == all[other]);
                            assert(pre.contains(all[other]));
                            assert(before.contains(all[other]));
                            let w = choose|w: int| 0 <= w < before.len() && before[w] == all[other];
                            assert(old_out[w].link_id@ == all[other].0);
                            assert(false);
                        }
                    }
                }
            },
        }
        i = i + 1;
    }
    proof {
        assert(all.subrange(0, n as int) =~= all);
        assert forall|i: int, j: int| 0 <= i < agents@.len() && 0 <= j < agents@[i].plan@.len()
            && walk_stage_link(#[trigger] agents@[i].plan@[j]) is Some
            implies uses_view(out@).contains((walk_stage_link(agents@[i].plan@[j])->0, EdgeKind::Footway)) by {
            lemma_walk_stage_links_persisted(agents@, i, j);
        }
    }
    Some(out)
}

/// A traffic route over rebuilt edges.
#[derive(Debug, Clone)]
pub struct TrafficRoute {
    pub id: u32,
    pub name: String,
    pub edges: Vec<EdgeId>,
    pub legacy_route_id: String,
}

/// The traffic routes of `routes` in order, each over the edges of its
/// links.
fn build_traffic_routes(by_link: &AssocList<String, EdgeId>, routes: &Vec<PersistedRoute>) -> (r: Vec<TrafficRoute>)
    requires
        by_link.well_formed(),
        routes@.len() <= u32::MAX,
        forall|l: Seq<char>| route_has_link(routes@, routes@.len() as int, l) ==> #[trigger] by_link.map().contains_key(l),
    ensures
        r@.len() == routes@.len(),
        forall|i: int| 0 <= i < r@.len() ==> {
            &&& (#[trigger] r@[i]).id == i
            &&& r@[i].name@ == routes@[i].id@
            &&& r@[i].legacy_route_id@ == routes@[i].id@
            &&& r@[i].edges@.len() == routes@[i].links@.len()
            &&& forall|k: int| 0 <= k < r@[i].edges@.len() ==> r@[i].edges@[k] == by_link.map()[#[trigger] routes@[i].links@[k]@]
        },
{
    let mut out: Vec<TrafficRoute> = Vec::new();
    let n = routes.len();
    let mut i: usize = 0;
    while i < n
        invariant
            n == routes@.len(),
            n <= u32::MAX,
            i <= n,
            by_link.well_formed(),
            forall|l: Seq<char>| route_has_link(routes@, routes@.len() as int, l) ==> #[trigger] by_link.map().contains_key(l),
            out@.len() == i,
            forall|q: int| 0 <= q < i ==> {
                &&& (#[trigger] out@[q]).id == q
                &&& out@[q].name@ == routes@[q].id@
                &&& out@[q].legacy_route_id@ == routes@[q].id@
                &&& out@[q].edges@.len() == routes@[q].links@.len()
                &&& forall|k: int| 0 <= k < out@[q].edges@.len() ==> out@[q].edges@[k] == by_link.map()[#[trigger] routes@[q].links@[k]@]
            },
        decreases n - i,
    {
        let route = &routes[i];
        let mut edges: Vec<EdgeId> = Vec::new();
        let m = route.links.len();
        let mut k: usize = 0;
        while k < m
            invariant
                n == routes@.len(),
                i < n,
                m == routes@[i as int].links@.len(),
                *route == routes@[i as int],
                k <= m,
                by_link.well_formed(),
                forall|l: Seq<char>| route_has_link(routes@, routes@.len() as int, l) ==> #[trigger] by_link.map().contains_key(l),
                edges@.len() == k,
                forall|j: int| 0 <= j < k ==> edges@[j] == by_link.map()[#[trigger] routes@[i as int].links@[j]@],
            decreases m - k,
        {
            let link = &route.links[k];
            assert(routes@[i as int].links@[k as int]@ == link@);
            assert(route_has_link(routes@, routes@.len() as int, link@));
            let e = match by_link.get(link) {
                Some(e) => *e,
                None => {
                    assert(false);
                    EdgeId(0)
                },
            };
            edges.push(e);
            k = k + 1;
        }
        let ghost before = out@;
        out.push(TrafficRoute { id: i as u32, name: route.id.clone(), edges, legacy_route_id: route.id.clone() });
        proof {
            assert forall|q: int| 0 <= q < i + 1 implies {
                &&& (#[trigger] out@[q]).id == q
                &&& out@[q].name@ == routes@[q].id@
                &&& out@[q].legacy_route_id@ == routes@[q].id@
                &&& out@[q].edges@.len() == routes@[q].links@.len()
                &&& forall|k: int| 0 <= k < out@[q].edges@.len() ==> out@[q].edges@[k] == by_link.map()[#[trigger] routes@[q].links@[k]@]
            } by {
                if q < i {
                    assert(out@[q] == before[q]);
                }
            }
        }
        i = i + 1;
    }
    out
}

/// The walking links among `ids` (those starting with `link:walk:`), each
/// once as a footway, sorted.
fn walk_polyline_links(ids: &Vec<String>) -> (r: Vec<LinkKind>)
    ensures
        ids_sorted(r@),
        r@.len() <= ids@.len(),
        forall|u: (Seq<char>, EdgeKind)| uses_view(r@).contains(u) <==>
            (u.1 == EdgeKind::Footway && is_walk_link(u.0) && exists|j: int| 0 <= j < ids@.len() && #[trigger] ids@[j]@ == u.0),
{
    proof {
        reveal_strlit("link:walk:");
        assert("link:walk:"@ =~= walk_link_prefix());
    }
    let mut out: Vec<LinkKind> = Vec::new();
    let n = ids.len();
    let mut i: usize = 0;
    while i < n
        invariant
            n == ids@.len(),
            i <= n,
            "link:walk:"@ == walk_link_prefix(),
            ids_sorted(out@),
            out@.len() <= i,
            forall|u: (Seq<char>, EdgeKind)| uses_view(out@).contains(u) <==>
                (u.1 == EdgeKind::Footway && is_walk_link(u.0) && exists|j: int| 0 <= j < i && #[trigger] ids@[j]@ == u.0),
        decreases n - i,
    {
        let id = &ids[i];
        let ghost old_out = out@;
        let ghost before = uses_view(out@);
        if starts_with(id.as_str(), "link:walk:") {
            match find_link(&out, id.as_str()) {
                Some(idx) => {
                    proof {
                        assert(uses_view(out@)[idx as int] == use_view(out@[idx as int]));
                        assert(uses_view(out@).contains(use_view(out@[idx as int])));
                    }
                },
                None => {
                    let x = LinkKind { link_id: id.clone(), kind: EdgeKind::Footway };
                    insert_by_key(&mut out, x);
                    proof {
                        assert forall|u: (Seq<char>, EdgeKind)| uses_view(out@).contains(u) <==> (before.contains(u) || u == use_view(x)) by {
                            if uses_view(out@).contains(u) {
                                let q = choose|q: int| 0 <= q < out@.len() && uses_view(out@)[q] == u;
                                assert(out@.contains(out@[q]));
                                if old_out.contains(out@[q]) {
                                    let w = choose|w: int| 0 <= w < old_out.len() && old_out[w] == out@[q];
                                    assert(before[w] == u);
                                }
                            }
                            if before.contains(u) {
                                let w = choose|w: int| 0 <= w < before.len() && before[w] == u;
                                assert(out@.contains(old_out[w]));
                                let z = choose|z: int| 0 <= z < out@.len() && out@[z] == old_out[w];
                                assert(uses_view(out@)[z] == u);
                            }
                            if u == use_view(x) {
                                assert(out@.contains(x));
                                let z = choose|z: int| 0 <= z < out@.len() && out@[z] == x;
                                assert(uses_view(out@)[z] == u);
                            }
                        }
                    }
                },
            }
        }
        proof {
            assert forall|u: (Seq<char>, EdgeKind)| uses_view(out@).contains(u) <==>
                (u.1 == EdgeKind::Footway && is_walk_link(u.0) && exists|j: int| 0 <= j < i + 1 && #[trigger] ids@[j]@ == u.0) by {
                if u.1 == EdgeKind::Footway && is_walk_link(u.0) && exists|j: int| 0 <= j < i + 1 && #[trigger] ids@[j]@ == u.0 {
                    let j = choose|j: int| 0 <= j < i + 1 && #[trigger] ids@[j]@ == u.0;
                    if j < i {
                        assert(before.contains(u));
                    }
                }
                if uses_view(out@).contains(u) && !before.contains(u) {
                    assert(ids@[i as int]@ == u.0);
                }
            }
        }
        i = i + 1;
    }
    out
}

impl Keyed for PersistedRoute {
    open spec fn sort_key(&self) -> Seq<char> {
        self.id@
    }

    fn key_str(&self) -> (r: &str) {
        self.id.as_str()
    }
}

impl Keyed for StopPlacement {
    open spec fn sort_key(&self) -> Seq<char> {
        self.id@
    }

    fn key_str(&self) -> (r: &str) {
        self.id.as_str()
    }
}

/// The routing rebuilt from a snapshot: the graph with the point key of each
/// node (none for stops between link ends), the agents waiting at stops, the
/// traffic routes, and the node of each stop; routes and stops in the order
/// they were processed (by id).
#[derive(Debug)]
pub struct SnapshotRouting {
    pub graph: RoutingGraph,
    pub point_keys: Vec<Option<PointKey>>,
    pub waiting: WaitingAgents,
    pub traffic_routes: Vec<TrafficRoute>,
    pub routes: Vec<PersistedRoute>,
    pub stops: Vec<StopPlacement>,
    pub stop_nodes: Vec<NodeId>,
}

/// Whether link `l` is a link of some route of `routes`.
pub open spec fn in_routes(routes: Seq<PersistedRoute>, l: Seq<char>) -> bool {
    route_has_link(routes, routes.len() as int, l)
}

/// Whether stop `s` stands on an existing link of its route.
pub open spec fn stop_resolves(routes: Seq<PersistedRoute>, s: StopPlacement) -> bool {
    stop_link(routes, s) is Some
}

/// The walking links among `ids`.
pub open spec fn polyline_walk_link(ids: Seq<String>, l: Seq<char>) -> bool {
    is_walk_link(l) && exists|j: int| 0 <= j < ids.len() && #[trigger] ids[j]@ == l
}

/// Whether the links of a snapshot can be rebuilt: every link it needs has
/// end points or is a route's link, and no link is used as two kinds of edge.
pub open spec fn links_restorable(
    routes: Seq<PersistedRoute>,
    agents: Seq<AgentLinkUses>,
    polyline_links: Seq<String>,
    ends: Seq<LinkEnds>,
) -> bool {
    let uses = all_uses(agents, agents.len() as int);
    &&& forall|l: Seq<char>| #[trigger] in_routes(routes, l) ==> ends_of(ends, l) is Some
    &&& !uses_conflict(uses)
    &&& forall|i: int| 0 <= i < uses.len() ==> ends_of(ends, (#[trigger] uses[i]).0) is Some || in_routes(routes, uses[i].0)
    &&& forall|l: Seq<char>| #[trigger] polyline_walk_link(polyline_links, l) ==> ends_of(ends, l) is Some || in_routes(routes, l)
        || exists|i: int| 0 <= i < uses.len() && (#[trigger] uses[i]).0 == l
}

/// Whether a snapshot's routing can be rebuilt: its links can (see
/// `links_restorable`) and every stop resolves.
pub open spec fn routing_restorable(
    routes: Seq<PersistedRoute>,
    agents: Seq<AgentLinkUses>,
    polyline_links: Seq<String>,
    ends: Seq<LinkEnds>,
    stops: Seq<StopPlacement>,
) -> bool {
    &&& links_restorable(routes, agents, polyline_links, ends)
    &&& forall|j: int| 0 <= j < stops.len() ==> stop_resolves(routes, #[trigger] stops[j])
}

/// Whether some route of `routes` has link `l`.
fn link_in_routes(routes: &Vec<PersistedRoute>, l: &str) -> (r: bool)
    ensures
        r == in_routes(routes@, l@),
{
    let n = routes.len();
    let mut i: usize = 0;
    while i < n
        invariant
            n == routes@.len(),
            i <= n,
            forall|q: int, k: int| 0 <= q < i && 0 <= k < routes@[q].links@.len() ==> #[trigger] routes@[q].links@[k]@ != l@,
        decreases n - i,
    {
        let links = &routes[i].links;
        let mut k: usize = 0;
        while k < links.len()
            invariant
                n == routes@.len(),
                i < n,
                *links == routes@[i as int].links,
                k <= links@.len(),
                forall|q: int, j: int| 0 <= q < i && 0 <= j < routes@[q].links@.len() ==> #[trigger] routes@[q].links@[j]@ != l@,
                forall|j: int| 0 <= j < k ==> #[trigger] routes@[i as int].links@[j]@ != l@,
            decreases links@.len() - k,
        {
            if str_equal(links[k].as_str(), l) {
                assert(routes@[i as int].links@[k as int]@ == l@);
                return true;
            }
            k = k + 1;
        }
        i = i + 1;
    }
    false
}

/// Whether a snapshot's routing can be rebuilt (see `routing_restorable`);
/// rebuilding panics when it cannot.
pub fn check_routing_restorable(
    routes: &Vec<PersistedRoute>,
    agents: &Vec<AgentLinkUses>,
    polyline_links: &Vec<String>,
    ends: &Vec<LinkEnds>,
    stops: &Vec<StopPlacement>,
) -> (r: bool)
    requires
        no_tram_steps(agents@),
    ensures
        r == routing_restorable(routes@, agents@, polyline_links@, ends@, stops@),
{
    let ghost uses = all_uses(agents@, agents@.len() as int);
    let n = routes.len();
    let mut i: usize = 0;
    while i < n
        invariant
            n == routes@.len(),
            i <= n,
            forall|q: int, k: int| 0 <= q < i && 0 <= k < routes@[q].links@.len() ==> ends_of(ends@, #[trigger] routes@[q].links@[k]@) is Some,
        decreases n - i,
    {
        let links = &routes[i].links;
        let mut k: usize = 0;
        while k < links.len()
            invariant
                n == routes@.len(),
                i < n,
                *links == routes@[i as int].links,
                k <= links@.len(),
                forall|q: int, j: int| 0 <= q < i && 0 <= j < routes@[q].links@.len() ==> ends_of(ends@, #[trigger] routes@[q].links@[j]@) is Some,
                forall|j: int| 0 <= j < k ==> ends_of(ends@, #[trigger] routes@[i as int].links@[j]@) is Some,
            decreases links@.len() - k,
        {
            if link_ends(ends, links[k].as_str()).is_none() {
                proof {
                    let l = routes@[i as int].links@[k as int]@;
                    assert(in_routes(routes@, l));
                }
                return false;
            }
            k = k + 1;
        }
        i = i + 1;
    }
    let walking = match persisted_walking_links(agents) {
        Some(w) => w,
        None => return false,
    };
    let m = walking.len();
    let mut j: usize = 0;
    while j < m
        invariant
            m == walking@.len(),
            j <= m,
            uses == all_uses(agents@, agents@.len() as int),
            forall|u: (Seq<char>, EdgeKind)| uses_view(walking@).contains(u) <==> uses.contains(u),
            forall|q: int| 0 <= q < j ==> ends_of(ends@, (#[trigger] walking@[q]).link_id@) is Some || in_routes(routes@, walking@[q].link_id@),
        decreases m - j,
    {
        let l = walking[j].link_id.as_str();
        if link_ends(ends, l).is_none() && !link_in_routes(routes, l) {
            proof {
                let u = use_view(walking@[j as int]);
                assert(uses_view(walking@)[j as int] == u);
                assert(uses_view(walking@).contains(u));
                assert(uses.contains(u));
                let w = choose|w: int| 0 <= w < uses.len() && uses[w] == u;
                assert(uses[w].0 == l@);
                assert(!(ends_of(ends@, uses[w].0) is Some || in_routes(routes@, uses[w].0)));
            }
            return false;
        }
        j = j + 1;
    }
    proof {
        assert forall|w: int| 0 <= w < uses.len() implies ends_of(ends@, (#[trigger] uses[w]).0) is Some || in_routes(routes@, uses[w].0) by {
            assert(uses.contains(uses[w]));
            let q = choose|q: int| 0 <= q < walking@.len() && uses_view(walking@)[q] == uses[w];
            assert(use_view(walking@[q]) == uses[w]);
        }
    }
    let p = polyline_links.len();
    let mut t: usize = 0;
    proof {
        reveal_strlit("link:walk:");
        assert("link:walk:"@ =~= walk_link_prefix());
    }
    while t < p
        invariant
            p == polyline_links@.len(),
            t <= p,
            "link:walk:"@ == walk_link_prefix(),
            uses == all_uses(agents@, agents@.len() as int),
            forall|u: (Seq<char>, EdgeKind)| uses_view(walking@).contains(u) <==> uses.contains(u),
            forall|q: int| 0 <= q < t && is_walk_link(polyline_links@[q]@) ==> ends_of(ends@, (#[trigger] polyline_links@[q])@) is Some
                || in_routes(routes@, polyline_links@[q]@) || exists|w: int| 0 <= w < uses.len() && (#[trigger] uses[w]).0 == polyline_links@[q]@,
        decreases p - t,
    {
        let l = polyline_links[t].as_str();
        if starts_with(l, "link:walk:") && link_ends(ends, l).is_none() && !link_in_routes(routes, l) {
            match find_link(&walking, l) {
                Some(idx) => {
                    proof {
                        let u = use_view(walking@[idx as int]);
                        assert(uses_view(walking@)[idx as int] == u);
                        assert(uses_view(walking@).contains(u));
                        assert(uses.contains(u));
                        let w = choose|w: int| 0 <= w < uses.len() && uses[w] == u;
                        assert(uses[w].0 == polyline_links@[t as int]@);
                    }
                },
                None => {
                    proof {
                        assert(polyline_walk_link(polyline_links@, l@));
                        if exists|w: int| 0 <= w < uses.len() && (#[trigger] uses[w]).0 == l@ {
                            let w = choose|w: int| 0 <= w < uses.len() && (#[trigger] uses[w]).0 == l@;
                            assert(uses.contains(uses[w]));
                            let q = choose|q: int| 0 <= q < walking@.len() && uses_view(walking@)[q] == uses[w];
                            assert(use_view(walking@[q]) == uses[w]);
                            assert(walking@[q].link_id@ == l@);
                        }
                    }
                    return false;
                },
            }
        }
        t = t + 1;
    }
    proof {
        assert forall|l: Seq<char>| #[trigger] polyline_walk_link(polyline_links@, l) implies ends_of(ends@, l) is Some || in_routes(routes@, l)
            || exists|w: int| 0 <= w < uses.len() && (#[trigger] uses[w]).0 == l by {
            let q = choose|q: int| 0 <= q < polyline_links@.len() && #[trigger] polyline_links@[q]@ == l;
            assert(is_walk_link(polyline_links@[q]@));
        }
    }
    let s = stops.len();
    let mut z: usize = 0;
    while z < s
        invariant
            s == stops@.len(),
            z <= s,
            forall|q: int| 0 <= q < z ==> stop_resolves(routes@, #[trigger] stops@[q]),
        decreases s - z,
    {
        let stop = &stops[z];
        let ok = match find_route(routes, stop.route_id.as_str()) {
            Some(ri) => stop.link_index < routes[ri].links.len(),
            None => false,
        };
        if !ok {
            assert(!stop_resolves(routes@, stops@[z as int]));
            return false;
        }
        z = z + 1;
    }
    true
}

/// The first route with an id is found, and none before it has that id.
proof fn lemma_route_index_first(routes: Seq<PersistedRoute>, id: Seq<char>, i: int)
    requires
        0 <= i,
    ensures
        match route_index_from(routes, id, i) {
            Some(r) => i <= r < routes.len() && routes[r].id@ == id && forall|q: int| i <= q < r ==> routes[q].id@ != id,
            None => forall|q: int| i <= q < routes.len() ==> routes[q].id@ != id,
        },
    decreases routes.len() - i,
{
    if i < routes.len() {
        lemma_route_index_first(routes, id, i + 1);
    }
}

/// The link count of routes depends only on the routes before `n`.
proof fn lemma_links_before_prefix(s: Seq<PersistedRoute>, t: Seq<PersistedRoute>, n: int)
    requires
        0 <= n <= s.len(),
        n <= t.len(),
        forall|i: int| 0 <= i < n ==> s[i] == t[i],
    ensures
        links_before(s, n) == links_before(t, n),
    decreases n,
{
    if n > 0 {
        lemma_links_before_prefix(s, t, n - 1);
    }
}

/// Taking a route out removes its links from the count.
proof fn lemma_links_before_remove(s: Seq<PersistedRoute>, j: int)
    requires
        0 <= j < s.len(),
    ensures
        links_before(s, s.len() as int) == links_before(s.remove(j), s.len() - 1) + s[j].links@.len(),
    decreases s.len(),
{
    let n = s.len() as int;
    if j == n - 1 {
        lemma_links_before_prefix(s, s.remove(j), n - 1);
    } else {
        let d = s.drop_last();
        lemma_links_before_remove(d, j);
        lemma_links_before_prefix(s, d, n - 1);
        let r = s.remove(j);
        assert(r.drop_last() =~= d.remove(j));
        lemma_links_before_prefix(r, r.drop_last(), n - 2);
        assert(r[n - 2] == s[n - 1]);
    }
}

/// Two lists of the same distinct routes count the same links.
proof fn lemma_links_before_permutation(s1: Seq<PersistedRoute>, s2: Seq<PersistedRoute>)
    requires
        s1.len() == s2.len(),
        s1.no_duplicates(),
        s2.no_duplicates(),
        forall|y: PersistedRoute| s1.contains(y) <==> s2.contains(y),
    ensures
        links_before(s1, s1.len() as int) == links_before(s2, s2.len() as int),
    decreases s1.len(),
{
    if s1.len() > 0 {
        let x = s1.last();
        assert(s1.contains(x));
        let j = choose|j: int| 0 <= j < s2.len() && s2[j] == x;
        let t1 = s1.drop_last();
        let t2 = s2.remove(j);
        assert forall|y: PersistedRoute| t1.contains(y) <==> t2.contains(y) by {
            if t1.contains(y) {
                let a = choose|a: int| 0 <= a < t1.len() && t1[a] == y;
                assert(s1[a] == y);
                assert(y != x);
                assert(s2.contains(y));
                let b = choose|b: int| 0 <= b < s2.len() && s2[b] == y;
                assert(b != j);
                if b < j {
                    assert(t2[b] == y);
                } else {
                    assert(t2[b - 1] == y);
                }
            }
            if t2.contains(y) {
                let b = choose|b: int| 0 <= b < t2.len() && t2[b] == y;
                let b2 = if b < j { b } else { b + 1 };
                assert(s2[b2] == y);
                assert(b2 != j);
                assert(y != x);
                assert(s1.contains(y));
                let a = choose|a: int| 0 <= a < s1.len() && s1[a] == y;
                assert(a != s1.len() - 1);
                assert(t1[a] == y);
            }
        }
        assert(t2.no_duplicates()) by {
            assert forall|a: int, b: int| 0 <= a < t2.len() && 0 <= b < t2.len() && a != b implies t2[a] != t2[b] by {
                let a2 = if a < j { a } else { a + 1 };
                let b2 = if b < j { b } else { b + 1 };
                assert(t2[a] == s2[a2] && t2[b] == s2[b2]);
            }
        }
        lemma_links_before_permutation(t1, t2);
        lemma_links_before_remove(s2, j);
        lemma_links_before_prefix(s1, t1, s1.len() - 1);
    }
}

/// Records with distinct ids are distinct.
proof fn lemma_distinct_ids_no_duplicates<T: Keyed>(s: Seq<T>)
    requires
        ids_distinct(s) || ids_sorted(s),
    ensures
        s.no_duplicates(),
{
    assert forall|a: int, b: int| 0 <= a < s.len() && 0 <= b < s.len() && a != b implies s[a] != s[b] by {
        if a < b {
            if ids_sorted(s) {
                crate::text::lemma_chars_lt_trichotomy(s[a].sort_key(), s[b].sort_key());
            }
        } else {
            if ids_sorted(s) {
                crate::text::lemma_chars_lt_trichotomy(s[b].sort_key(), s[a].sort_key());
            }
        }
    }
}

/// Stops resolve alike in two lists of the same routes with distinct ids.
proof fn lemma_stop_link_same(s1: Seq<PersistedRoute>, s2: Seq<PersistedRoute>, st: StopPlacement)
    requires
        ids_distinct(s1),
        ids_distinct(s2),
        forall|y: PersistedRoute| s1.contains(y) <==> s2.contains(y),
    ensures
        stop_link(s1, st) == stop_link(s2, st),
{
    lemma_route_index_first(s1, st.route_id@, 0);
    lemma_route_index_first(s2, st.route_id@, 0);
    match route_index_from(s1, st.route_id@, 0) {
        Some(r1) => {
            assert(s1.contains(s1[r1]));
            let r2 = choose|r2: int| 0 <= r2 < s2.len() && s2[r2] == s1[r1];
            match route_index_from(s2, st.route_id@, 0) {
                Some(q) => {
                    if q != r2 {
                        if q < r2 {
                            assert(s2[q].sort_key() != s2[r2].sort_key());
                        } else {
                            assert(s2[r2].sort_key() != s2[q].sort_key());
                        }
                    }
                },
                None => {},
            }
        },
        None => {
            match route_index_from(s2, st.route_id@, 0) {
                Some(r2) => {
                    assert(s2.contains(s2[r2]));
                    let r1 = choose|r1: int| 0 <= r1 < s1.len() && s1[r1] == s2[r2];
                },
                None => {},
            }
        },
    }
}

/// Whether two edges are named after the same link.
pub open spec fn same_name(a: GraphEdge, b: GraphEdge) -> bool {
    match (a.legacy_id, b.legacy_id) {
        (Some(x), Some(y)) => x@ == y@,
        _ => false,
    }
}

/// No two edges are named after the same link.
pub open spec fn names_unique(g: RoutingGraph) -> bool {
    forall|i: int, j: int| 0 <= i < g.edges@.len() && 0 <= j < g.edges@.len()
        && same_name(#[trigger] g.edges@[i], #[trigger] g.edges@[j]) ==> i == j
}

/// Each named edge joins the nodes of its link's end points.
pub open spec fn ends_respected(g: RoutingGraph, keys: Seq<Option<PointKey>>, ends: Seq<LinkEnds>) -> bool {
    forall|i: int| 0 <= i < g.edges@.len() ==> match (#[trigger] g.edges@[i]).legacy_id {
        Some(x) => ends_of(ends, x@) matches Some((s, t)) && keys[g.edges@[i].from.0 as int] == Some(s) && keys[g.edges@[i].to.0 as int] == Some(t),
        None => true,
    }
}

/// Each unnamed edge reverses the named footway just before it.
pub open spec fn reverses_ok(g: RoutingGraph) -> bool {
    forall|i: int| 0 <= i < g.edges@.len() && (#[trigger] g.edges@[i]).legacy_id is None ==> {
        &&& i > 0
        &&& g.edges@[i - 1].legacy_id is Some
        &&& g.edges@[i - 1].kind == EdgeKind::Footway
        &&& g.edges@[i].kind == EdgeKind::Footway
        &&& g.edges@[i].from == g.edges@[i - 1].to
        &&& g.edges@[i].to == g.edges@[i - 1].from
    }
}

/// Whether some edge is named after link `l`.
pub open spec fn has_edge_for(g: RoutingGraph, l: Seq<char>) -> bool {
    exists|i: int| 0 <= i < g.edges@.len() && named(#[trigger] g.edges@[i], l)
}

/// A graph being rebuilt names no two edges after the same link.
proof fn lemma_builder_names_unique(g: RoutingGraph, keys: Seq<Option<PointKey>>, by_link: AssocList<String, EdgeId>, table: Seq<LinkEnds>)
    requires
        builder_wf(g, keys, by_link, table),
    ensures
        names_unique(g),
{
    reveal(builder_wf);
    reveal(edges_consistent);
    assert forall|i: int, j: int| 0 <= i < g.edges@.len() && 0 <= j < g.edges@.len()
        && same_name(#[trigger] g.edges@[i], #[trigger] g.edges@[j]) implies i == j by {
        assert(edge_ok(g, keys, by_link, table, i));
        assert(edge_ok(g, keys, by_link, table, j));
    }
}

/// A graph being rebuilt joins each named edge's end-point nodes.
proof fn lemma_builder_ends(g: RoutingGraph, keys: Seq<Option<PointKey>>, by_link: AssocList<String, EdgeId>, table: Seq<LinkEnds>)
    requires
        builder_wf(g, keys, by_link, table),
    ensures
        ends_respected(g, keys, table),
        reverses_ok(g),
{
    reveal(builder_wf);
    reveal(edges_consistent);
    assert forall|i: int| 0 <= i < g.edges@.len() implies match (#[trigger] g.edges@[i]).legacy_id {
        Some(x) => ends_of(table, x@) matches Some((s, t)) && keys[g.edges@[i].from.0 as int] == Some(s) && keys[g.edges@[i].to.0 as int] == Some(t),
        None => true,
    } by {
        assert(edge_ok(g, keys, by_link, table, i));
    }
    assert forall|i: int| 0 <= i < g.edges@.len() && (#[trigger] g.edges@[i]).legacy_id is None implies {
        &&& i > 0
        &&& g.edges@[i - 1].legacy_id is Some
        &&& g.edges@[i - 1].kind == EdgeKind::Footway
        &&& g.edges@[i].kind == EdgeKind::Footway
        &&& g.edges@[i].from == g.edges@[i - 1].to
        &&& g.edges@[i].to == g.edges@[i - 1].from
    } by {
        assert(edge_ok(g, keys, by_link, table, i));
    }
}

/// Every link a graph being rebuilt records has an edge.
proof fn lemma_builder_recorded(g: RoutingGraph, keys: Seq<Option<PointKey>>, by_link: AssocList<String, EdgeId>, table: Seq<LinkEnds>)
    requires
        builder_wf(g, keys, by_link, table),
    ensures
        forall|l: Seq<char>| #[trigger] by_link.map().contains_key(l) ==> has_edge_for(g, l),
        forall|l: Seq<char>| #[trigger] by_link.map().contains_key(l) ==>
            (by_link.map()[l].0 as int) < g.edges@.len() && named(g.edges@[by_link.map()[l].0 as int], l),
{
    reveal(builder_wf);
    reveal(links_recorded);
    assert forall|l: Seq<char>| #[trigger] by_link.map().contains_key(l) implies has_edge_for(g, l) by {
        let i = by_link.map()[l].0 as int;
        assert(named(g.edges@[i], l));
    }
}

/// What a graph being rebuilt guarantees of its edges.
proof fn lemma_builder_facts(g: RoutingGraph, keys: Seq<Option<PointKey>>, by_link: AssocList<String, EdgeId>, table: Seq<LinkEnds>)
    requires
        builder_wf(g, keys, by_link, table),
    ensures
        g.well_formed(),
        keys.len() == g.nodes@.len(),
        keys_distinct(keys),
        names_unique(g),
        ends_respected(g, keys, table),
        reverses_ok(g),
        forall|l: Seq<char>| #[trigger] by_link.map().contains_key(l) ==> has_edge_for(g, l),
        forall|l: Seq<char>| #[trigger] by_link.map().contains_key(l) ==>
            (by_link.map()[l].0 as int) < g.edges@.len() && named(g.edges@[by_link.map()[l].0 as int], l),
{
    lemma_builder_names_unique(g, keys, by_link, table);
    lemma_builder_ends(g, keys, by_link, table);
    lemma_builder_recorded(g, keys, by_link, table);
    reveal(builder_wf);
}

/// Route links that all have end points can be added as road edges.
proof fn lemma_route_links_have_ends(routes: Seq<PersistedRoute>, ends: Seq<LinkEnds>)
    requires
        forall|l: Seq<char>| #[trigger] in_routes(routes, l) ==> ends_of(ends, l) is Some,
    ensures
        forall|r: int, k: int| 0 <= r < routes.len() && 0 <= k < routes[r].links@.len() ==>
            ends_of(ends, #[trigger] routes[r].links@[k]@) is Some,
{
    assert forall|r: int, k: int| 0 <= r < routes.len() && 0 <= k < routes[r].links@.len() implies
        ends_of(ends, #[trigger] routes[r].links@[k]@) is Some by {
        assert(in_routes(routes, routes[r].links@[k]@));
    }
}

/// Each link the agents use has end points or already has an edge.
proof fn lemma_walking_listable(
    walking: Seq<LinkKind>,
    uses: Seq<(Seq<char>, EdgeKind)>,
    routes: Seq<PersistedRoute>,
    ends: Seq<LinkEnds>,
    by_link: AssocList<String, EdgeId>,
)
    requires
        forall|u: (Seq<char>, EdgeKind)| uses_view(walking).contains(u) <==> uses.contains(u),
        forall|i: int| 0 <= i < uses.len() ==> ends_of(ends, (#[trigger] uses[i]).0) is Some || in_routes(routes, uses[i].0),
        forall|l: Seq<char>| route_has_link(routes, routes.len() as int, l) ==> #[trigger] by_link.map().contains_key(l),
    ensures
        forall|j: int| 0 <= j < walking.len() ==>
            by_link.map().contains_key((#[trigger] walking[j]).link_id@) || ends_of(ends, walking[j].link_id@) is Some,
{
    assert forall|j: int| 0 <= j < walking.len() implies
        by_link.map().contains_key((#[trigger] walking[j]).link_id@) || ends_of(ends, walking[j].link_id@) is Some by {
        let u = use_view(walking[j]);
        assert(uses_view(walking)[j] == u);
        assert(uses_view(walking).contains(u));
        assert(uses.contains(u));
        let w = choose|w: int| 0 <= w < uses.len() && uses[w] == u;
        assert(ends_of(ends, uses[w].0) is Some || in_routes(routes, uses[w].0));
    }
}

/// Every link listed with an edge kind has its edge once the list is added.
proof fn lemma_listed_covered(list: Seq<LinkKind>, uses: Seq<(Seq<char>, EdgeKind)>, by_link: AssocList<String, EdgeId>)
    requires
        forall|u: (Seq<char>, EdgeKind)| uses_view(list).contains(u) <==> uses.contains(u),
        forall|j: int| 0 <= j < list.len() ==> #[trigger] by_link.map().contains_key(list[j].link_id@),
    ensures
        forall|i: int| 0 <= i < uses.len() ==> #[trigger] by_link.map().contains_key(uses[i].0),
{
    assert forall|i: int| 0 <= i < uses.len() implies #[trigger] by_link.map().contains_key(uses[i].0) by {
        assert(uses.contains(uses[i]));
        assert(uses_view(list).contains(uses[i]));
        let z = choose|z: int| 0 <= z < list.len() && uses_view(list)[z] == uses[i];
        assert(use_view(list[z]) == uses[i]);
    }
}

/// Each walking link with a polyline has end points or already has an edge.
proof fn lemma_poly_listable(
    poly: Seq<LinkKind>,
    ids: Seq<String>,
    uses: Seq<(Seq<char>, EdgeKind)>,
    routes: Seq<PersistedRoute>,
    ends: Seq<LinkEnds>,
    by_link: AssocList<String, EdgeId>,
)
    requires
        forall|u: (Seq<char>, EdgeKind)| uses_view(poly).contains(u) <==>
            (u.1 == EdgeKind::Footway && is_walk_link(u.0) && exists|j: int| 0 <= j < ids.len() && #[trigger] ids[j]@ == u.0),
        forall|l: Seq<char>| #[trigger] polyline_walk_link(ids, l) ==> ends_of(ends, l) is Some || in_routes(routes, l)
            || exists|i: int| 0 <= i < uses.len() && (#[trigger] uses[i]).0 == l,
        forall|l: Seq<char>| route_has_link(routes, routes.len() as int, l) ==> #[trigger] by_link.map().contains_key(l),
        forall|i: int| 0 <= i < uses.len() ==> #[trigger] by_link.map().contains_key(uses[i].0),
    ensures
        forall|j: int| 0 <= j < poly.len() ==>
            by_link.map().contains_key((#[trigger] poly[j]).link_id@) || ends_of(ends, poly[j].link_id@) is Some,
{
    assert forall|j: int| 0 <= j < poly.len() implies
        by_link.map().contains_key((#[trigger] poly[j]).link_id@) || ends_of(ends, poly[j].link_id@) is Some by {
        let u = use_view(poly[j]);
        assert(uses_view(poly)[j] == u);
        assert(uses_view(poly).contains(u));
        let l = u.0;
        assert(polyline_walk_link(ids, l));
        if !(ends_of(ends, l) is Some) && !in_routes(routes, l) {
            let w = choose|w: int| 0 <= w < uses.len() && (#[trigger] uses[w]).0 == l;
            assert(by_link.map().contains_key(uses[w].0));
        }
    }
}

/// Every walking link with a polyline has its edge once they are added.
proof fn lemma_poly_covered(poly: Seq<LinkKind>, ids: Seq<String>, by_link: AssocList<String, EdgeId>)
    requires
        forall|u: (Seq<char>, EdgeKind)| uses_view(poly).contains(u) <==>
            (u.1 == EdgeKind::Footway && is_walk_link(u.0) && exists|j: int| 0 <= j < ids.len() && #[trigger] ids[j]@ == u.0),
        forall|j: int| 0 <= j < poly.len() ==> #[trigger] by_link.map().contains_key(poly[j].link_id@),
    ensures
        forall|l: Seq<char>| #[trigger] polyline_walk_link(ids, l) ==> by_link.map().contains_key(l),
{
    assert forall|l: Seq<char>| #[trigger] polyline_walk_link(ids, l) implies by_link.map().contains_key(l) by {
        let u = (l, EdgeKind::Footway);
        assert(uses_view(poly).contains(u));
        let z = choose|z: int| 0 <= z < poly.len() && uses_view(poly)[z] == u;
        assert(use_view(poly[z]) == u);
    }
}

/// Keys kept by one step and the next are kept by both.
proof fn lemma_keys_kept(b0: AssocList<String, EdgeId>, b1: AssocList<String, EdgeId>, b2: AssocList<String, EdgeId>)
    requires
        forall|l: Seq<char>| #[trigger] b0.map().contains_key(l) ==> b1.map().contains_key(l),
        forall|l: Seq<char>| #[trigger] b1.map().contains_key(l) ==> b2.map().contains_key(l),
    ensures
        forall|l: Seq<char>| #[trigger] b0.map().contains_key(l) ==> b2.map().contains_key(l),
{
}

/// The edges of the links of a restorable snapshot, built into an empty
/// graph: road edges for the route links, then edges for the further links
/// the agents use, then footways for the further walking links with a
/// polyline (see `install_snapshot_routing`).
fn build_link_edges(
    routes: &Vec<PersistedRoute>,
    agents: &Vec<AgentLinkUses>,
    polyline_links: &Vec<String>,
    ends: &Vec<LinkEnds>,
) -> (r: (RoutingGraph, Vec<Option<PointKey>>, AssocList<String, EdgeId>))
    requires
        no_tram_steps(agents@),
        links_restorable(routes@, agents@, polyline_links@, ends@),
        2 * links_before(routes@, routes@.len() as int) + 2 * all_uses(agents@, agents@.len() as int).len()
            + 2 * polyline_links@.len() + 8 < u32::MAX,
    ensures
        builder_wf(r.0, r.1@, r.2, ends@),
        r.0.nodes@.len() <= 2 * links_before(routes@, routes@.len() as int) + 2 * all_uses(agents@, agents@.len() as int).len()
            + 2 * polyline_links@.len(),
        forall|n: int| 0 <= n < r.0.nodes@.len() ==>
            (#[trigger] r.0.nodes@[n]).kind == NodeKind::Intersection && r.0.nodes@[n].legacy_ids@.len() == 0,
        forall|l: Seq<char>| #[trigger] in_routes(routes@, l) ==> r.2.map().contains_key(l),
        forall|i: int| 0 <= i < all_uses(agents@, agents@.len() as int).len() ==>
            r.2.map().contains_key((#[trigger] all_uses(agents@, agents@.len() as int)[i]).0),
        forall|l: Seq<char>| #[trigger] polyline_walk_link(polyline_links@, l) ==> r.2.map().contains_key(l),
        link_kinds_built(r.0, r.2, routes@, all_uses(agents@, agents@.len() as int), polyline_links@),
        edge_entries(r.0) == rebuilt_entries(routes@, all_uses(agents@, agents@.len() as int), polyline_links@),
{
    let ghost uses = all_uses(agents@, agents@.len() as int);
    let (mut g, mut keys, mut by_link) = empty_builder(Ghost(ends@));
    let ghost g0 = g;
    let ghost k0 = keys@;
    proof {
        lemma_builder_lens(g, keys@, by_link, ends@);
        lemma_route_links_have_ends(routes@, ends@);
    }
    add_route_links(&mut g, &mut keys, &mut by_link, ends, routes);
    let ghost g1 = g;
    let ghost k1 = keys@;
    let ghost b1 = by_link;
    proof { lemma_builder_lens(g, keys@, by_link, ends@); }
    let walking = match persisted_walking_links(agents) {
        Some(w) => w,
        None => {
            assert(false);
            Vec::new()
        },
    };
    proof { lemma_walking_listable(walking@, uses, routes@, ends@, by_link); }
    add_listed_links(&mut g, &mut keys, &mut by_link, ends, &walking);
    let ghost g2 = g;
    let ghost k2 = keys@;
    let ghost b2 = by_link;
    proof {
        reveal(listed_progress);
        lemma_builder_lens(g, keys@, by_link, ends@);
        lemma_listed_covered(walking@, uses, b2);
        lemma_keys_kept(b1, b1, b2);
    }
    let poly = walk_polyline_links(polyline_links);
    proof {
        assert forall|l: Seq<char>| route_has_link(routes@, routes@.len() as int, l) implies #[trigger] b2.map().contains_key(l) by {
            assert(b1.map().contains_key(l));
        }
        lemma_poly_listable(poly@, polyline_links@, uses, routes@, ends@, b2);
    }
    add_listed_links(&mut g, &mut keys, &mut by_link, ends, &poly);
    proof {
        reveal(listed_progress);
        lemma_builder_lens(g, keys@, by_link, ends@);
        lemma_grows_trans(g0, k0, g1, k1, g2, k2);
        lemma_grows_trans(g0, k0, g2, k2, g, keys@);
        reveal(grows_from);
        lemma_keys_kept(b2, b2, by_link);
        lemma_poly_covered(poly@, polyline_links@, by_link);
        assert forall|i: int| 0 <= i < uses.len() implies by_link.map().contains_key((#[trigger] uses[i]).0) by {
            assert(b2.map().contains_key(uses[i].0));
        }
        assert forall|l: Seq<char>| #[trigger] in_routes(routes@, l) implies by_link.map().contains_key(l) by {
            assert(b1.map().contains_key(l));
            assert(b2.map().contains_key(l));
        }
        lemma_built_kinds(g1, k1, b1, g2, k2, b2, g, keys@, by_link, routes@, walking@, poly@, polyline_links@, uses, ends@);
        assert(edge_entries(g0) == Seq::<(Option<Seq<char>>, EdgeKind)>::empty()) by {
            reveal(edge_entries);
            assert(edge_entries(g0) =~= Seq::<(Option<Seq<char>>, EdgeKind)>::empty());
        }
        lemma_listing_of(walking@, use_set(uses));
        lemma_listing_of(poly@, walk_polyline_uses(polyline_links@));
    }
    (g, keys, by_link)
}

/// Whether `by_link` records link `l` on an edge of kind `k`.
pub open spec fn link_kind_is(g: RoutingGraph, by_link: AssocList<String, EdgeId>, l: Seq<char>, k: EdgeKind) -> bool {
    &&& by_link.map().contains_key(l)
    &&& (by_link.map()[l].0 as int) < g.edges@.len()
    &&& g.edges@[by_link.map()[l].0 as int].kind == k
}

/// Whether some use of `uses` is of link `l`.
pub open spec fn link_used(uses: Seq<(Seq<char>, EdgeKind)>, l: Seq<char>) -> bool {
    exists|i: int| 0 <= i < uses.len() && #[trigger] uses[i].0 == l
}

/// Whether `e` is a footway named after a walking link.
pub open spec fn is_walk_footway(e: GraphEdge) -> bool {
    &&& e.kind == EdgeKind::Footway
    &&& e.legacy_id matches Some(x) && is_walk_link(x@)
}

/// Each footway named after a walking link is followed by its unnamed
/// reverse: a footway from its end back to its start.
pub open spec fn walk_footways_reversed(g: RoutingGraph) -> bool {
    forall|i: int| 0 <= i < g.edges@.len() && is_walk_footway(#[trigger] g.edges@[i]) ==> {
        &&& i + 1 < g.edges@.len()
        &&& g.edges@[i + 1].legacy_id is None
        &&& g.edges@[i + 1].kind == EdgeKind::Footway
        &&& g.edges@[i + 1].from == g.edges@[i].to
        &&& g.edges@[i + 1].to == g.edges@[i].from
    }
}

/// The links recorded after the route phase are route links, on roads.
proof fn lemma_phase_one_routes(g1: RoutingGraph, k1: Seq<Option<PointKey>>, b1: AssocList<String, EdgeId>, routes: Seq<PersistedRoute>, ends: Seq<LinkEnds>)
    requires
        builder_wf(g1, k1, b1, ends),
        forall|i: int| 0 <= i < g1.edges@.len() ==> #[trigger] route_road(g1, routes, i),
    ensures
        forall|l: Seq<char>| #[trigger] b1.map().contains_key(l) ==> in_routes(routes, l) && link_kind_is(g1, b1, l, EdgeKind::Road),
{
    reveal(builder_wf);
    reveal(links_recorded);
    assert forall|l: Seq<char>| #[trigger] b1.map().contains_key(l) implies in_routes(routes, l) && link_kind_is(g1, b1, l, EdgeKind::Road) by {
        let e = b1.map()[l].0 as int;
        assert(route_road(g1, routes, e));
        assert(named(g1.edges@[e], l));
    }
}

/// An edge of the route phase kept by later phases is named after a route link.
proof fn lemma_old_named_is_route(g1: RoutingGraph, g: RoutingGraph, routes: Seq<PersistedRoute>, e: int, l: Seq<char>)
    requires
        0 <= e < g1.edges@.len(),
        route_road(g1, routes, e),
        g.edges@[e] == g1.edges@[e],
        named(g.edges@[e], l),
    ensures
        in_routes(routes, l),
{
}

/// The edge a later phase records for a link that is no route link is one
/// it added.
proof fn lemma_recorded_new(
    g1: RoutingGraph, k1: Seq<Option<PointKey>>,
    g: RoutingGraph, k: Seq<Option<PointKey>>, b: AssocList<String, EdgeId>,
    routes: Seq<PersistedRoute>, ends: Seq<LinkEnds>, l: Seq<char>,
)
    requires
        builder_wf(g, k, b, ends),
        grows_from(g1, k1, g, k),
        forall|i: int| 0 <= i < g1.edges@.len() ==> #[trigger] route_road(g1, routes, i),
        b.map().contains_key(l),
        !in_routes(routes, l),
    ensures
        g1.edges@.len() <= (b.map()[l].0 as int) < g.edges@.len(),
        named(g.edges@[b.map()[l].0 as int], l),
{
    reveal(builder_wf);
    reveal(links_recorded);
    reveal(grows_from);
    let e = b.map()[l].0 as int;
    if e < g1.edges@.len() {
        assert(route_road(g1, routes, e));
        lemma_old_named_is_route(g1, g, routes, e, l);
    }
}

/// What a listed phase says of one edge it added: it is named after the
/// first entry for its link, has that entry's kind, and a walking footway
/// is followed by an unnamed edge.
proof fn lemma_new_edge(g0: RoutingGraph, g: RoutingGraph, list: Seq<LinkKind>, e: int, l: Seq<char>)
    requires
        new_edges_listed(g0, g, list, list.len() as int),
        g0.edges@.len() <= e < g.edges@.len(),
        named(g.edges@[e], l),
    ensures
        first_listed(list, l, list.len() as int) matches Some(j) && 0 <= j < list.len() && list[j].link_id@ == l
            && g.edges@[e].kind == list[j].kind,
        (is_walk_link(l) && g.edges@[e].kind == EdgeKind::Footway) ==> e + 1 < g.edges@.len() && g.edges@[e + 1].legacy_id is None,
{
    reveal(new_edges_listed);
    lemma_first_listed(list, l, list.len() as int);
}

/// Links used by agents but on no route get the kind their use needs.
proof fn lemma_used_link_kinds(
    g1: RoutingGraph, k1: Seq<Option<PointKey>>,
    g2: RoutingGraph, k2: Seq<Option<PointKey>>, b2: AssocList<String, EdgeId>,
    routes: Seq<PersistedRoute>, walking: Seq<LinkKind>, uses: Seq<(Seq<char>, EdgeKind)>, ends: Seq<LinkEnds>,
)
    requires
        builder_wf(g2, k2, b2, ends),
        grows_from(g1, k1, g2, k2),
        forall|i: int| 0 <= i < g1.edges@.len() ==> #[trigger] route_road(g1, routes, i),
        new_edges_listed(g1, g2, walking, walking.len() as int),
        forall|u: (Seq<char>, EdgeKind)| uses_view(walking).contains(u) <==> uses.contains(u),
        !uses_conflict(uses),
        forall|i: int| 0 <= i < uses.len() ==> #[trigger] b2.map().contains_key(uses[i].0),
    ensures
        forall|i: int| 0 <= i < uses.len() && !in_routes(routes, (#[trigger] uses[i]).0) ==> link_kind_is(g2, b2, uses[i].0, uses[i].1),
{
    assert forall|i: int| 0 <= i < uses.len() && !in_routes(routes, (#[trigger] uses[i]).0) implies link_kind_is(g2, b2, uses[i].0, uses[i].1) by {
        let l = uses[i].0;
        assert(b2.map().contains_key(l));
        lemma_recorded_new(g1, k1, g2, k2, b2, routes, ends, l);
        let e = b2.map()[l].0 as int;
        lemma_new_edge(g1, g2, walking, e, l);
        let j = first_listed(walking, l, walking.len() as int)->0;
        let u = use_view(walking[j]);
        assert(uses_view(walking)[j] == u);
        assert(uses_view(walking).contains(u));
        assert(uses.contains(u));
        let w = choose|w: int| 0 <= w < uses.len() && uses[w] == u;
        assert(uses[w].0 == uses[i].0);
    }
}

/// Walking links with a polyline that nothing else needs become footways.
proof fn lemma_poly_link_kinds(
    g1: RoutingGraph, k1: Seq<Option<PointKey>>,
    g2: RoutingGraph, k2: Seq<Option<PointKey>>,
    g3: RoutingGraph, k3: Seq<Option<PointKey>>, b3: AssocList<String, EdgeId>,
    routes: Seq<PersistedRoute>, walking: Seq<LinkKind>, poly: Seq<LinkKind>, ids: Seq<String>,
    uses: Seq<(Seq<char>, EdgeKind)>, ends: Seq<LinkEnds>,
)
    requires
        builder_wf(g3, k3, b3, ends),
        grows_from(g1, k1, g3, k3),
        forall|i: int| 0 <= i < g2.edges@.len() ==> g3.edges@[i] == g2.edges@[i],
        g2.edges@.len() <= g3.edges@.len(),
        forall|i: int| 0 <= i < g1.edges@.len() ==> #[trigger] route_road(g1, routes, i),
        new_edges_listed(g1, g2, walking, walking.len() as int),
        new_edges_listed(g2, g3, poly, poly.len() as int),
        g1.edges@.len() <= g2.edges@.len(),
        forall|u: (Seq<char>, EdgeKind)| uses_view(walking).contains(u) <==> uses.contains(u),
        forall|u: (Seq<char>, EdgeKind)| uses_view(poly).contains(u) ==> u.1 == EdgeKind::Footway,
        forall|l: Seq<char>| #[trigger] polyline_walk_link(ids, l) ==> b3.map().contains_key(l),
    ensures
        forall|l: Seq<char>| #[trigger] polyline_walk_link(ids, l) && !in_routes(routes, l) && !link_used(uses, l)
            ==> link_kind_is(g3, b3, l, EdgeKind::Footway),
{
    assert forall|l: Seq<char>| #[trigger] polyline_walk_link(ids, l) && !in_routes(routes, l) && !link_used(uses, l)
        implies link_kind_is(g3, b3, l, EdgeKind::Footway) by {
        lemma_recorded_new(g1, k1, g3, k3, b3, routes, ends, l);
        let e = b3.map()[l].0 as int;
        if e < g2.edges@.len() {
            assert(g3.edges@[e] == g2.edges@[e]);
            lemma_new_edge(g1, g2, walking, e, l);
            let j = first_listed(walking, l, walking.len() as int)->0;
            let u = use_view(walking[j]);
            assert(uses_view(walking)[j] == u);
            assert(uses_view(walking).contains(u));
            assert(uses.contains(u));
            let w = choose|w: int| 0 <= w < uses.len() && uses[w] == u;
            assert(uses[w].0 == l);
            assert(link_used(uses, l));
        } else {
            lemma_new_edge(g2, g3, poly, e, l);
            let j = first_listed(poly, l, poly.len() as int)->0;
            let u = use_view(poly[j]);
            assert(uses_view(poly)[j] == u);
            assert(uses_view(poly).contains(u));
        }
    }
}

/// `reverses_ok`, kept folded so that its quantifier is used one index at
/// a time.
#[verifier::opaque]
spec fn reverses_folded(g: RoutingGraph) -> bool {
    reverses_ok(g)
}

/// The unnamed edge `i` reverses the named footway before it.
proof fn lemma_reverse_at(g: RoutingGraph, i: int)
    requires
        reverses_folded(g),
        0 <= i < g.edges@.len(),
        g.edges@[i].legacy_id is None,
    ensures
        i > 0,
        g.edges@[i].kind == EdgeKind::Footway,
        g.edges@[i].from == g.edges@[i - 1].to,
        g.edges@[i].to == g.edges@[i - 1].from,
{
    reveal(reverses_folded);
}

/// Every walking footway the listed phases added is followed by its reverse.
proof fn lemma_walk_footways_reversed(
    g1: RoutingGraph,
    g2: RoutingGraph,
    g3: RoutingGraph,
    routes: Seq<PersistedRoute>, walking: Seq<LinkKind>, poly: Seq<LinkKind>,
)
    requires
        reverses_folded(g3),
        forall|i: int| 0 <= i < g1.edges@.len() ==> g3.edges@[i] == g1.edges@[i],
        forall|i: int| 0 <= i < g2.edges@.len() ==> g3.edges@[i] == g2.edges@[i],
        g1.edges@.len() <= g2.edges@.len(),
        g2.edges@.len() <= g3.edges@.len(),
        forall|i: int| 0 <= i < g1.edges@.len() ==> #[trigger] route_road(g1, routes, i),
        new_edges_listed(g1, g2, walking, walking.len() as int),
        new_edges_listed(g2, g3, poly, poly.len() as int),
    ensures
        walk_footways_reversed(g3),
{
    assert forall|i: int| 0 <= i < g3.edges@.len() && is_walk_footway(#[trigger] g3.edges@[i]) implies {
        &&& i + 1 < g3.edges@.len()
        &&& g3.edges@[i + 1].legacy_id is None
        &&& g3.edges@[i + 1].kind == EdgeKind::Footway
        &&& g3.edges@[i + 1].from == g3.edges@[i].to
        &&& g3.edges@[i + 1].to == g3.edges@[i].from
    } by {
        let l = g3.edges@[i].legacy_id->0@;
        if i < g1.edges@.len() {
            assert(route_road(g1, routes, i));
            assert(g3.edges@[i] == g1.edges@[i]);
        } else if i < g2.edges@.len() {
            assert(g3.edges@[i] == g2.edges@[i]);
            lemma_new_edge(g1, g2, walking, i, l);
            assert(g3.edges@[i + 1] == g2.edges@[i + 1]);
        } else {
            lemma_new_edge(g2, g3, poly, i, l);
        }
        lemma_reverse_at(g3, i + 1);
    }
}

/// What one listed phase keeps and adds (see `listed_progress`).
proof fn lemma_listed_facts(
    g0: RoutingGraph, k0: Seq<Option<PointKey>>, b0: AssocList<String, EdgeId>,
    g: RoutingGraph, k: Seq<Option<PointKey>>, b: AssocList<String, EdgeId>,
    table: Seq<LinkEnds>, list: Seq<LinkKind>,
)
    requires
        listed_progress(g0, k0, b0, g, k, b, table, list, list.len() as int),
    ensures
        builder_wf(g, k, b, table),
        grows_from(g0, k0, g, k),
        k0.len() == g0.nodes@.len(),
        new_edges_listed(g0, g, list, list.len() as int),
        forall|l: Seq<char>| #[trigger] b0.map().contains_key(l) ==> b.map().contains_key(l) && b.map()[l] == b0.map()[l],
{
    reveal(listed_progress);
}

/// What `build_link_edges` leaves of the kinds of its edges: route links
/// on roads, further used links of their use's kind, further walking links
/// with a polyline as footways, and each walking footway followed by its
/// reverse.
#[verifier::opaque]
spec fn link_kinds_built(
    g: RoutingGraph,
    by_link: AssocList<String, EdgeId>,
    routes: Seq<PersistedRoute>,
    uses: Seq<(Seq<char>, EdgeKind)>,
    ids: Seq<String>,
) -> bool {
    &&& forall|l: Seq<char>| #[trigger] in_routes(routes, l) ==> link_kind_is(g, by_link, l, EdgeKind::Road)
    &&& forall|i: int| 0 <= i < uses.len() && !in_routes(routes, (#[trigger] uses[i]).0) ==> link_kind_is(g, by_link, uses[i].0, uses[i].1)
    &&& forall|l: Seq<char>| #[trigger] polyline_walk_link(ids, l) && !in_routes(routes, l) && !link_used(uses, l)
        ==> link_kind_is(g, by_link, l, EdgeKind::Footway)
    &&& walk_footways_reversed(g)
}

/// The three phases of `build_link_edges` give `link_kinds_built`.
#[verifier::rlimit(100)]
#[verifier::spinoff_prover]
proof fn lemma_built_kinds(
    g1: RoutingGraph, k1: Seq<Option<PointKey>>, b1: AssocList<String, EdgeId>,
    g2: RoutingGraph, k2: Seq<Option<PointKey>>, b2: AssocList<String, EdgeId>,
    g3: RoutingGraph, k3: Seq<Option<PointKey>>, b3: AssocList<String, EdgeId>,
    routes: Seq<PersistedRoute>, walking: Seq<LinkKind>, poly: Seq<LinkKind>, ids: Seq<String>,
    uses: Seq<(Seq<char>, EdgeKind)>, ends: Seq<LinkEnds>,
)
    requires
        builder_wf(g1, k1, b1, ends),
        forall|i: int| 0 <= i < g1.edges@.len() ==> #[trigger] route_road(g1, routes, i),
        forall|l: Seq<char>| route_has_link(routes, routes.len() as int, l) ==> #[trigger] b1.map().contains_key(l),
        listed_progress(g1, k1, b1, g2, k2, b2, ends, walking, walking.len() as int),
        listed_progress(g2, k2, b2, g3, k3, b3, ends, poly, poly.len() as int),
        forall|u: (Seq<char>, EdgeKind)| uses_view(walking).contains(u) <==> uses.contains(u),
        !uses_conflict(uses),
        forall|i: int| 0 <= i < uses.len() ==> #[trigger] b2.map().contains_key(uses[i].0),
        forall|u: (Seq<char>, EdgeKind)| uses_view(poly).contains(u) ==> u.1 == EdgeKind::Footway,
        forall|l: Seq<char>| #[trigger] polyline_walk_link(ids, l) ==> b3.map().contains_key(l),
    ensures
        link_kinds_built(g3, b3, routes, uses, ids),
{
    reveal(link_kinds_built);
    lemma_listed_facts(g1, k1, b1, g2, k2, b2, ends, walking);
    lemma_listed_facts(g2, k2, b2, g3, k3, b3, ends, poly);
    lemma_builder_lens(g2, k2, b2, ends);
    lemma_grows_trans(g1, k1, g2, k2, g3, k3);
    let n1 = g1.edges@.len();
    let n2 = g2.edges@.len();
    assert(n1 <= n2 && n2 <= g3.edges@.len()
        && (forall|i: int| 0 <= i < n1 ==> g3.edges@[i] == g1.edges@[i])
        && (forall|i: int| 0 <= i < n2 ==> g3.edges@[i] == g2.edges@[i])) by {
        reveal(grows_from);
    }
    assert forall|l: Seq<char>| #[trigger] in_routes(routes, l) implies link_kind_is(g3, b3, l, EdgeKind::Road) by {
        lemma_phase_one_routes(g1, k1, b1, routes, ends);
        assert(b1.map().contains_key(l));
        assert(link_kind_is(g1, b1, l, EdgeKind::Road));
        assert(b2.map()[l] == b1.map()[l]);
        assert(b3.map()[l] == b2.map()[l]);
    }
    assert forall|i: int| 0 <= i < uses.len() && !in_routes(routes, (#[trigger] uses[i]).0) implies
        link_kind_is(g3, b3, uses[i].0, uses[i].1) by {
        lemma_used_link_kinds(g1, k1, g2, k2, b2, routes, walking, uses, ends);
        assert(link_kind_is(g2, b2, uses[i].0, uses[i].1));
        assert(b3.map()[uses[i].0] == b2.map()[uses[i].0]);
    }
    assert(forall|l: Seq<char>| #[trigger] polyline_walk_link(ids, l) && !in_routes(routes, l) && !link_used(uses, l)
        ==> link_kind_is(g3, b3, l, EdgeKind::Footway)) by {
        lemma_poly_link_kinds(g1, k1, g2, k2, g3, k3, b3, routes, walking, poly, ids, uses, ends);
    }
    assert(walk_footways_reversed(g3)) by {
        lemma_builder_ends(g3, k3, b3, ends);
        assert(reverses_folded(g3)) by {
            reveal(reverses_folded);
        }
        lemma_walk_footways_reversed(g1, g2, g3, routes, walking, poly);
    }
}

/// A restorable snapshot is still restorable with its routes and stops
/// sorted, and its routes count the same links.
proof fn lemma_restorable_sorted(
    routes: Seq<PersistedRoute>,
    sorted_routes: Seq<PersistedRoute>,
    agents: Seq<AgentLinkUses>,
    polyline_links: Seq<String>,
    ends: Seq<LinkEnds>,
    stops: Seq<StopPlacement>,
    sorted_stops: Seq<StopPlacement>,
)
    requires
        ids_distinct(routes),
        ids_sorted(sorted_routes),
        sorted_routes.len() == routes.len(),
        forall|y: PersistedRoute| sorted_routes.contains(y) <==> routes.contains(y),
        forall|y: StopPlacement| sorted_stops.contains(y) <==> stops.contains(y),
        routing_restorable(routes, agents, polyline_links, ends, stops),
    ensures
        routing_restorable(sorted_routes, agents, polyline_links, ends, sorted_stops),
        links_before(sorted_routes, sorted_routes.len() as int) == links_before(routes, routes.len() as int),
        forall|l: Seq<char>| #[trigger] in_routes(routes, l) <==> in_routes(sorted_routes, l),
{
    lemma_distinct_ids_no_duplicates(routes);
    lemma_distinct_ids_no_duplicates(sorted_routes);
    lemma_links_before_permutation(sorted_routes, routes);
    lemma_sorted_ids_distinct(sorted_routes);
    lemma_in_routes_same(sorted_routes, routes);
    let uses = all_uses(agents, agents.len() as int);
    assert forall|i: int| 0 <= i < uses.len() implies ends_of(ends, (#[trigger] uses[i]).0) is Some || in_routes(sorted_routes, uses[i].0) by {
        assert(ends_of(ends, uses[i].0) is Some || in_routes(routes, uses[i].0));
    }
    assert forall|j: int| 0 <= j < sorted_stops.len() implies stop_resolves(sorted_routes, #[trigger] sorted_stops[j]) by {
        let st = sorted_stops[j];
        assert(sorted_stops.contains(st));
        let q = choose|q: int| 0 <= q < stops.len() && stops[q] == st;
        assert(stop_resolves(routes, stops[q]));
        lemma_stop_link_same(sorted_routes, routes, st);
    }
}

/// Every stop of a restorable snapshot stands on a link that has an edge.
proof fn lemma_stops_on_links(routes: Seq<PersistedRoute>, stops: Seq<StopPlacement>, by_link: AssocList<String, EdgeId>)
    requires
        forall|j: int| 0 <= j < stops.len() ==> stop_resolves(routes, #[trigger] stops[j]),
        forall|l: Seq<char>| #[trigger] in_routes(routes, l) ==> by_link.map().contains_key(l),
    ensures
        forall|j: int| 0 <= j < stops.len() ==> (stop_link(routes, #[trigger] stops[j]) matches Some(l) && by_link.map().contains_key(l)),
{
    assert forall|j: int| 0 <= j < stops.len() implies
        (stop_link(routes, #[trigger] stops[j]) matches Some(l) && by_link.map().contains_key(l)) by {
        let st = stops[j];
        assert(stop_resolves(routes, st));
        lemma_route_index_first(routes, st.route_id@, 0);
        let ri = route_index_from(routes, st.route_id@, 0)->0;
        let l = routes[ri].links@[st.link_index as int]@;
        assert(in_routes(routes, l));
    }
}

/// Labels of nodes that started as bare intersections.
proof fn lemma_fresh_labels(g0: RoutingGraph, g: RoutingGraph, stops: Seq<StopPlacement>, placed: Seq<NodeId>)
    requires
        forall|n: int| 0 <= n < g0.nodes@.len() ==>
            (#[trigger] g0.nodes@[n]).kind == NodeKind::Intersection && g0.nodes@[n].legacy_ids@.len() == 0,
        stops_labelled(g0, g, stops, placed, stops.len() as int),
    ensures
        forall|n: int| 0 <= n < g.nodes@.len() ==> {
            &&& ids_view((#[trigger] g.nodes@[n]).legacy_ids@) == stop_ids_at(stops, placed, NodeId(n as u32), stops.len() as int)
            &&& g.nodes@[n].kind == (if stop_ids_at(stops, placed, NodeId(n as u32), stops.len() as int).len() > 0 {
                NodeKind::TransitStop
            } else {
                NodeKind::Intersection
            })
        },
{
    assert forall|n: int| 0 <= n < g.nodes@.len() implies {
        &&& ids_view((#[trigger] g.nodes@[n]).legacy_ids@) == stop_ids_at(stops, placed, NodeId(n as u32), stops.len() as int)
        &&& g.nodes@[n].kind == (if stop_ids_at(stops, placed, NodeId(n as u32), stops.len() as int).len() > 0 {
            NodeKind::TransitStop
        } else {
            NodeKind::Intersection
        })
    } by {
        let ids = stop_ids_at(stops, placed, NodeId(n as u32), stops.len() as int);
        if n < g0.nodes@.len() {
            assert(g0.nodes@[n].kind == NodeKind::Intersection);
            assert(ids_view(g0.nodes@[n].legacy_ids@) =~= Seq::<Seq<char>>::empty());
        }
        assert(Seq::<Seq<char>>::empty() + ids =~= ids);
    }
}

/// Queues of a fresh waiting list once the stops are placed.
proof fn lemma_fresh_queues(w0: WaitingAgents, w: WaitingAgents, stops: Seq<StopPlacement>, placed: Seq<NodeId>)
    requires
        forall|n: NodeId| #[trigger] w0.queue_at(n) == Seq::<Seq<char>>::empty(),
        forall|n: NodeId| #[trigger] w.queue_at(n) == w0.queue_at(n) + waiting_at(stops, placed, n, stops.len() as int),
    ensures
        forall|n: NodeId| #[trigger] w.queue_at(n) == waiting_at(stops, placed, n, stops.len() as int),
{
    assert forall|n: NodeId| #[trigger] w.queue_at(n) == waiting_at(stops, placed, n, stops.len() as int) by {
        assert(w0.queue_at(n) == Seq::<Seq<char>>::empty());
        assert(Seq::<Seq<char>>::empty() + waiting_at(stops, placed, n, stops.len() as int)
            =~= waiting_at(stops, placed, n, stops.len() as int));
    }
}

/// Whether each edge of traffic route `t` is the edge named after the
/// matching link of `links`.
pub open spec fn traffic_edges_named(g: RoutingGraph, t: TrafficRoute, links: Seq<String>) -> bool {
    forall|k: int| 0 <= k < t.edges@.len() ==>
        ((#[trigger] t.edges@[k]).0 as int) < g.edges@.len() && named(g.edges@[t.edges@[k].0 as int], links[k]@)
}

/// Each link of the traffic routes names the edge `by_link` records for it.
proof fn lemma_traffic_named(g: RoutingGraph, by_link: AssocList<String, EdgeId>, routes: Seq<PersistedRoute>, traffic: Seq<TrafficRoute>)
    requires
        forall|l: Seq<char>| #[trigger] by_link.map().contains_key(l) ==>
            (by_link.map()[l].0 as int) < g.edges@.len() && named(g.edges@[by_link.map()[l].0 as int], l),
        forall|l: Seq<char>| #[trigger] in_routes(routes, l) ==> by_link.map().contains_key(l),
        traffic.len() == routes.len(),
        forall|i: int| 0 <= i < traffic.len() ==> {
            &&& (#[trigger] traffic[i]).edges@.len() == routes[i].links@.len()
            &&& forall|k: int| 0 <= k < traffic[i].edges@.len() ==> traffic[i].edges@[k] == by_link.map()[#[trigger] routes[i].links@[k]@]
        },
    ensures
        forall|i: int| 0 <= i < traffic.len() ==> traffic_edges_named(g, #[trigger] traffic[i], routes[i].links@),
{
    assert forall|i: int| 0 <= i < traffic.len() implies traffic_edges_named(g, #[trigger] traffic[i], routes[i].links@) by {
        assert forall|k: int| 0 <= k < traffic[i].edges@.len() implies
            ((#[trigger] traffic[i].edges@[k]).0 as int) < g.edges@.len()
            && named(g.edges@[traffic[i].edges@[k].0 as int], routes[i].links@[k]@) by {
            let l = routes[i].links@[k]@;
            assert(in_routes(routes, l));
            assert(by_link.map().contains_key(l));
            assert(traffic[i].edges@[k] == by_link.map()[l]);
        }
    }
}

/// Whether some edge named after link `l` has kind `k`.
pub open spec fn named_kind(g: RoutingGraph, l: Seq<char>, k: EdgeKind) -> bool {
    exists|e: int| 0 <= e < g.edges@.len() && named(#[trigger] g.edges@[e], l) && g.edges@[e].kind == k
}

/// The kinds of a rebuilt graph's named edges: a road for each route link;
/// for each further link the agents use, the kind that use needs; a footway
/// for each further walking link with a polyline (`ids`); and each walking
/// footway followed by its reverse.
#[verifier::opaque]
pub open spec fn rebuilt_kinds(
    g: RoutingGraph,
    routes: Seq<PersistedRoute>,
    uses: Seq<(Seq<char>, EdgeKind)>,
    ids: Seq<String>,
) -> bool {
    &&& forall|l: Seq<char>| #[trigger] in_routes(routes, l) ==> named_kind(g, l, EdgeKind::Road)
    &&& forall|i: int| 0 <= i < uses.len() && !in_routes(routes, (#[trigger] uses[i]).0) ==> named_kind(g, uses[i].0, uses[i].1)
    &&& forall|l: Seq<char>| #[trigger] polyline_walk_link(ids, l) && !in_routes(routes, l) && !link_used(uses, l)
        ==> named_kind(g, l, EdgeKind::Footway)
    &&& walk_footways_reversed(g)
}

/// Stop `s` stands at node `n`: on the edge named after its link, at that
/// edge's start, at its end, or (for a stop in between) at a node without
/// a point key (see `stop_node_ok`).
#[verifier::opaque]
pub open spec fn stop_placed(g: RoutingGraph, keys: Seq<Option<PointKey>>, routes: Seq<PersistedRoute>, s: StopPlacement, n: NodeId) -> bool {
    &&& stop_link(routes, s) is Some
    &&& exists|e: int| 0 <= e < g.edges@.len() && named(#[trigger] g.edges@[e], stop_link(routes, s)->0)
        && stop_node_ok(g, keys, EdgeId(e as u32), s.at, n, 0)
}

/// The kinds `build_link_edges` gave hold of the finished graph, whose
/// edges are the same.
proof fn lemma_kinds_carried(
    g3: RoutingGraph,
    g: RoutingGraph,
    keys: Seq<Option<PointKey>>,
    by_link: AssocList<String, EdgeId>,
    ends: Seq<LinkEnds>,
    routes: Seq<PersistedRoute>,
    sorted_routes: Seq<PersistedRoute>,
    uses: Seq<(Seq<char>, EdgeKind)>,
    ids: Seq<String>,
)
    requires
        link_kinds_built(g3, by_link, sorted_routes, uses, ids),
        g.edges == g3.edges,
        builder_wf(g, keys, by_link, ends),
        forall|l: Seq<char>| #[trigger] in_routes(routes, l) <==> in_routes(sorted_routes, l),
    ensures
        rebuilt_kinds(g, routes, uses, ids),
{
    reveal(link_kinds_built);
    reveal(rebuilt_kinds);
    lemma_builder_recorded(g, keys, by_link, ends);
    assert forall|l: Seq<char>, k: EdgeKind| link_kind_is(g3, by_link, l, k) implies #[trigger] named_kind(g, l, k) by {
        let e = by_link.map()[l].0 as int;
        assert(named(g.edges@[e], l));
    }
    assert forall|l: Seq<char>| #[trigger] in_routes(routes, l) implies named_kind(g, l, EdgeKind::Road) by {
        assert(in_routes(sorted_routes, l));
        assert(link_kind_is(g3, by_link, l, EdgeKind::Road));
    }
    assert forall|i: int| 0 <= i < uses.len() && !in_routes(routes, (#[trigger] uses[i]).0) implies named_kind(g, uses[i].0, uses[i].1) by {
        assert(!in_routes(sorted_routes, uses[i].0));
        assert(link_kind_is(g3, by_link, uses[i].0, uses[i].1));
    }
    assert forall|l: Seq<char>| #[trigger] polyline_walk_link(ids, l) && !in_routes(routes, l) && !link_used(uses, l)
        implies named_kind(g, l, EdgeKind::Footway) by {
        assert(!in_routes(sorted_routes, l));
        assert(link_kind_is(g3, by_link, l, EdgeKind::Footway));
    }
}

/// Each placed stop stands where `stop_placed` says.
proof fn lemma_stops_placed(
    g: RoutingGraph,
    keys: Seq<Option<PointKey>>,
    by_link: AssocList<String, EdgeId>,
    ends: Seq<LinkEnds>,
    routes: Seq<PersistedRoute>,
    stops: Seq<StopPlacement>,
    placed: Seq<NodeId>,
    fresh: int,
)
    requires
        builder_wf(g, keys, by_link, ends),
        placed.len() == stops.len(),
        fresh >= 0,
        forall|j: int| 0 <= j < stops.len() ==> (stop_link(routes, #[trigger] stops[j]) matches Some(l) && by_link.map().contains_key(l)),
        forall|j: int| 0 <= j < stops.len() ==> stop_node_ok(g, keys,
            by_link.map()[stop_link(routes, #[trigger] stops[j])->0], stops[j].at, placed[j], fresh),
    ensures
        forall|j: int| 0 <= j < stops.len() ==> stop_placed(g, keys, routes, #[trigger] stops[j], placed[j]),
{
    reveal(stop_placed);
    lemma_builder_recorded(g, keys, by_link, ends);
    assert forall|j: int| 0 <= j < stops.len() implies stop_placed(g, keys, routes, #[trigger] stops[j], placed[j]) by {
        let l = stop_link(routes, stops[j])->0;
        let id = by_link.map()[l];
        let e = id.0 as int;
        assert(named(g.edges@[e], l));
        assert(EdgeId(e as u32) == id);
        assert(stop_node_ok(g, keys, id, stops[j].at, placed[j], fresh));
    }
}

/// Rebuilds the routing of a restorable snapshot (see `routing_restorable`):
/// a road edge for each link of the routes (routes by id, links in order),
/// then an edge of the needed kind for each further link the agents use
/// (links in order, see `persisted_walking_links`), then a footway for each
/// further walking link with a polyline (in order); each walking footway is
/// followed by its reverse (see `rebuilt_kinds`); the edges stand in that
/// order, which fixes each link's edge id (see `rebuilt_entries`). Edges
/// meet at nodes shared by equal end points. Then the stops are placed by id, each at its link's
/// start, its end, or a new node in between (see `stop_placed`), and the
/// traffic routes are laid over the edges. Each stop in between gets a
/// node of its own.
#[verifier::rlimit(100)]
#[verifier::spinoff_prover]
pub fn install_snapshot_routing(
    routes: Vec<PersistedRoute>,
    agents: &Vec<AgentLinkUses>,
    polyline_links: &Vec<String>,
    ends: &Vec<LinkEnds>,
    stops: Vec<StopPlacement>,
) -> (r: SnapshotRouting)
    requires
        ids_distinct(routes@),
        ids_distinct(stops@),
        no_tram_steps(agents@),
        routing_restorable(routes@, agents@, polyline_links@, ends@, stops@),
        routes@.len() <= u32::MAX,
        2 * links_before(routes@, routes@.len() as int) + 2 * all_uses(agents@, agents@.len() as int).len()
            + 2 * polyline_links@.len() + stops@.len() + 8 < u32::MAX,
    ensures
        r.graph.well_formed(),
        r.point_keys@.len() == r.graph.nodes@.len(),
        keys_distinct(r.point_keys@),
        names_unique(r.graph),
        ends_respected(r.graph, r.point_keys@, ends@),
        reverses_ok(r.graph),
        ids_sorted(r.routes@),
        r.routes@.len() == routes@.len(),
        forall|y: PersistedRoute| r.routes@.contains(y) <==> routes@.contains(y),
        ids_sorted(r.stops@),
        r.stops@.len() == stops@.len(),
        forall|y: StopPlacement| r.stops@.contains(y) <==> stops@.contains(y),
        forall|l: Seq<char>| #[trigger] in_routes(routes@, l) ==> has_edge_for(r.graph, l),
        forall|i: int| 0 <= i < all_uses(agents@, agents@.len() as int).len() ==>
            has_edge_for(r.graph, (#[trigger] all_uses(agents@, agents@.len() as int)[i]).0),
        forall|l: Seq<char>| #[trigger] polyline_walk_link(polyline_links@, l) ==> has_edge_for(r.graph, l),
        rebuilt_kinds(r.graph, routes@, all_uses(agents@, agents@.len() as int), polyline_links@),
        edge_entries(r.graph) == rebuilt_entries(r.routes@, all_uses(agents@, agents@.len() as int), polyline_links@),
        r.traffic_routes@.len() == r.routes@.len(),
        forall|i: int| 0 <= i < r.traffic_routes@.len() ==> {
            &&& (#[trigger] r.traffic_routes@[i]).id == i
            &&& r.traffic_routes@[i].name@ == r.routes@[i].id@
            &&& r.traffic_routes@[i].legacy_route_id@ == r.routes@[i].id@
            &&& r.traffic_routes@[i].edges@.len() == r.routes@[i].links@.len()
            &&& traffic_edges_named(r.graph, r.traffic_routes@[i], r.routes@[i].links@)
        },
        r.stop_nodes@.len() == r.stops@.len(),
        forall|k: int| 0 <= k < r.stops@.len() ==> stop_placed(r.graph, r.point_keys@, r.routes@, #[trigger] r.stops@[k], r.stop_nodes@[k]),
        forall|a: int, b: int| 0 <= a < b < r.stops@.len() && r.stops@[a].at == WalkPoint::Along && r.stops@[b].at == WalkPoint::Along
            ==> #[trigger] r.stop_nodes@[a] != #[trigger] r.stop_nodes@[b],
        forall|n: int| 0 <= n < r.graph.nodes@.len() ==> {
            &&& ids_view((#[trigger] r.graph.nodes@[n]).legacy_ids@) == stop_ids_at(r.stops@, r.stop_nodes@, NodeId(n as u32), r.stops@.len() as int)
            &&& r.graph.nodes@[n].kind == (if stop_ids_at(r.stops@, r.stop_nodes@, NodeId(n as u32), r.stops@.len() as int).len() > 0 {
                NodeKind::TransitStop
            } else {
                NodeKind::Intersection
            })
        },
        forall|n: NodeId| #[trigger] r.waiting.queue_at(n) == waiting_at(r.stops@, r.stop_nodes@, n, r.stops@.len() as int),
{
    let ghost routes0 = routes@;
    let ghost stops0 = stops@;
    let sorted_routes = sort_by_key(routes);
    let sorted_stops = sort_by_key(stops);
    proof {
        lemma_restorable_sorted(routes0, sorted_routes@, agents@, polyline_links@, ends@, stops0, sorted_stops@);
    }
    let (mut g, mut keys, by_link) = build_link_edges(&sorted_routes, agents, polyline_links, ends);
    let ghost g3 = g;
    proof {
        lemma_builder_lens(g, keys@, by_link, ends@);
        lemma_stops_on_links(sorted_routes@, sorted_stops@, by_link);
    }
    let mut waiting = WaitingAgents::new();
    let ghost w0 = waiting;
    let stop_nodes = place_stops(&mut g, &mut keys, &by_link, Ghost(ends@), &sorted_routes, &sorted_stops, &mut waiting);
    proof {
        lemma_builder_lens(g, keys@, by_link, ends@);
        assert forall|l: Seq<char>| route_has_link(sorted_routes@, sorted_routes@.len() as int, l) implies
            #[trigger] by_link.map().contains_key(l) by {
            assert(in_routes(sorted_routes@, l));
        }
    }
    let traffic_routes = build_traffic_routes(&by_link, &sorted_routes);
    proof {
        lemma_builder_facts(g, keys@, by_link, ends@);
        lemma_fresh_labels(g3, g, sorted_stops@, stop_nodes@);
        assert forall|n: NodeId| #[trigger] w0.queue_at(n) == Seq::<Seq<char>>::empty() by {
            assert(w0.queue_at(n) =~= Seq::<Seq<char>>::empty());
        }
        lemma_fresh_queues(w0, waiting, sorted_stops@, stop_nodes@);
        lemma_traffic_named(g, by_link, sorted_routes@, traffic_routes@);
        lemma_kinds_carried(g3, g, keys@, by_link, ends@, routes0, sorted_routes@,
            all_uses(agents@, agents@.len() as int), polyline_links@);
        lemma_stops_placed(g, keys@, by_link, ends@, sorted_routes@, sorted_stops@, stop_nodes@, g3.nodes@.len() as int);
        lemma_entries_same_edges(g, g3);
    }
    SnapshotRouting {
        graph: g,
        point_keys: keys,
        waiting,
        traffic_routes,
        routes: sorted_routes,
        stops: sorted_stops,
        stop_nodes,
    }
}

/// Growth composes.
proof fn lemma_grows_trans(
    a: RoutingGraph,
    ka: Seq<Option<PointKey>>,
    b: RoutingGraph,
    kb: Seq<Option<PointKey>>,
    c: RoutingGraph,
    kc: Seq<Option<PointKey>>,
)
    requires
        grows_from(a, ka, b, kb),
        grows_from(b, kb, c, kc),
        ka.len() == a.nodes@.len(),
        kb.len() == b.nodes@.len(),
    ensures
        grows_from(a, ka, c, kc),
{
    reveal(grows_from);
    assert forall|i: int| a.nodes@.len() <= i < c.nodes@.len() implies
        (#[trigger] c.nodes@[i]).kind == NodeKind::Intersection && c.nodes@[i].legacy_ids@.len() == 0 by {
        if i < b.nodes@.len() {
            assert(c.nodes@[i] == b.nodes@[i]);
        }
    }
}

/// Strictly sorted ids are distinct.
proof fn lemma_sorted_ids_distinct<T: Keyed>(s: Seq<T>)
    requires
        ids_sorted(s),
    ensures
        ids_distinct(s),
{
    assert forall|i: int, j: int| 0 <= i < j < s.len() implies #[trigger] s[i].sort_key() != #[trigger] s[j].sort_key() by {
        crate::text::lemma_chars_lt_trichotomy(s[i].sort_key(), s[j].sort_key());
    }
}

/// Lists of the same routes have the same links.
proof fn lemma_in_routes_same(s1: Seq<PersistedRoute>, s2: Seq<PersistedRoute>)
    requires
        forall|y: PersistedRoute| s1.contains(y) <==> s2.contains(y),
    ensures
        forall|l: Seq<char>| #[trigger] in_routes(s1, l) <==> in_routes(s2, l),
{
    assert forall|l: Seq<char>| #[trigger] in_routes(s1, l) <==> in_routes(s2, l) by {
        if in_routes(s1, l) {
            let (r, k) = choose|r: int, k: int| 0 <= r < s1.len() && 0 <= k < s1[r].links@.len() && #[trigger] s1[r].links@[k]@ == l;
            assert(s1.contains(s1[r]));
            let q = choose|q: int| 0 <= q < s2.len() && s2[q] == s1[r];
            assert(s2[q].links@[k]@ == l);
        }
        if in_routes(s2, l) {
            let (r, k) = choose|r: int, k: int| 0 <= r < s2.len() && 0 <= k < s2[r].links@.len() && #[trigger] s2[r].links@[k]@ == l;
            assert(s2.contains(s2[r]));
            let q = choose|q: int| 0 <= q < s1.len() && s1[q] == s2[r];
            assert(s1[q].links@[k]@ == l);
        }
    }
}

/// The canonical keys of the edges of traffic route `t`, in order.
pub open spec fn persisted_links(g: RoutingGraph, t: TrafficRoute) -> Seq<Seq<char>> {
    Seq::new(t.edges@.len(), |k: int| canonical_key_of(g.edges@[t.edges@[k].0 as int]))
}

/// The persisted form of traffic route `t`: its legacy route id and the
/// canonical key of each of its edges, in order.
pub fn persisted_route_of(graph: &RoutingGraph, t: &TrafficRoute) -> (r: PersistedRoute)
    requires
        graph.well_formed(),
        forall|k: int| 0 <= k < t.edges@.len() ==> ((#[trigger] t.edges@[k]).0 as int) < graph.edges@.len(),
    ensures
        r.id@ == t.legacy_route_id@,
        ids_view(r.links@) == persisted_links(*graph, *t),
{
    let mut links: Vec<String> = Vec::new();
    let n = t.edges.len();
    let mut k: usize = 0;
    while k < n
        invariant
            graph.well_formed(),
            n == t.edges@.len(),
            k <= n,
            forall|j: int| 0 <= j < t.edges@.len() ==> ((#[trigger] t.edges@[j]).0 as int) < graph.edges@.len(),
            ids_view(links@) == persisted_links(*graph, *t).subrange(0, k as int),
        decreases n - k,
    {
        let key = graph.canonical_edge_key(t.edges[k]);
        let ghost before = links@;
        links.push(key);
        proof {
            assert(ids_view(links@) =~= ids_view(before).push(key@));
            assert(persisted_links(*graph, *t).subrange(0, k + 1) =~= persisted_links(*graph, *t).subrange(0, k as int).push(key@));
        }
        k = k + 1;
    }
    proof {
        assert(persisted_links(*graph, *t).subrange(0, n as int) =~= persisted_links(*graph, *t));
    }
    PersistedRoute { id: t.legacy_route_id.clone(), links }
}

/// Persisting a rebuilt traffic route gives back the route it was built
/// from: the same id and the same links (see `install_snapshot_routing`).
pub proof fn lemma_route_persist_round_trip(g: RoutingGraph, t: TrafficRoute, route: PersistedRoute)
    requires
        t.legacy_route_id@ == route.id@,
        t.edges@.len() == route.links@.len(),
        traffic_edges_named(g, t, route.links@),
    ensures
        persisted_links(g, t) == ids_view(route.links@),
{
    assert forall|k: int| 0 <= k < t.edges@.len() implies persisted_links(g, t)[k] == ids_view(route.links@)[k] by {
        assert(((#[trigger] t.edges@[k]).0 as int) < g.edges@.len() && named(g.edges@[t.edges@[k].0 as int], route.links@[k]@));
    }
    assert(persisted_links(g, t) =~= ids_view(route.links@));
}

/// In a graph that names no two edges after the same link, a link that has
/// an edge resolves, as a persisted key, to the edge named after it: the
/// persisted active routes of a rebuilt snapshot find their edges again.
pub proof fn lemma_rebuilt_link_resolves(g: RoutingGraph, l: Seq<char>)
    requires
        g.well_formed(),
        names_unique(g),
        has_edge_for(g, l),
    ensures
        resolve_canonical_edge_key_spec(g, l) matches Some(e) && (e.0 as int) < g.edges@.len() && named(g.edges@[e.0 as int], l),
{
    let i = choose|i: int| 0 <= i < g.edges@.len() && named(#[trigger] g.edges@[i], l);
    crate::graph::lemma_first_legacy_edge_hit(g, l, g.edges@.len() as int);
    match crate::graph::first_legacy_edge(g, l) {
        Some(j) => {
            assert(crate::graph::edge_has_legacy(g, j, l));
            assert(same_name(g.edges@[i], g.edges@[j]));
            assert(i == j);
        },
        None => {
            assert(crate::graph::edge_has_legacy(g, i, l));
        },
    }
}

} // verus!

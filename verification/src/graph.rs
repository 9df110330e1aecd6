//! The routing graph as the mobility logic reads it: node and edge identity,
//! kinds, connectivity and legacy (authored) identifiers. Geometry stays with
//! the caller.
use vstd::prelude::*;

use crate::ids::{EdgeId, NodeId};
use crate::text::{decimal, parse_u32, parse_u32_str, prefixed_decimal, starts_with, str_equal};

verus! {

/// What an edge carries.
#[derive(Debug, Clone, Copy, PartialEq, Eq, Hash, Structural)]
pub enum EdgeKind {
    Footway,
    Road,
    TramTrack,
}

/// What a node stands for.
#[derive(Debug, Clone, Copy, PartialEq, Eq, Hash, Structural)]
pub enum NodeKind {
    Intersection,
    ActivityLocation,
    TransitStop,
}

/// A directed edge of the routing graph.
#[derive(Debug, Clone)]
pub struct GraphEdge {
    pub id: EdgeId,
    pub from: NodeId,
    pub to: NodeId,
    pub kind: EdgeKind,
    /// Authored identifier of the link this edge was built from, if any.
    pub legacy_id: Option<String>,
}

/// A node of the routing graph with its authored identifiers (the first one
/// is the primary id, the rest are aliases).
#[derive(Debug, Clone)]
pub struct GraphNode {
    pub id: NodeId,
    pub kind: NodeKind,
    pub legacy_ids: Vec<String>,
}

/// Nodes and edges, each stored at the index of its own id.
#[derive(Debug, Clone)]
pub struct RoutingGraph {
    pub nodes: Vec<GraphNode>,
    pub edges: Vec<GraphEdge>,
}

/// The text `"edge:"`, prefix of the key of an edge without legacy id.
pub open spec fn edge_prefix() -> Seq<char> {
    seq!['e', 'd', 'g', 'e', ':']
}

/// Key of an edge: its legacy id, or `edge:<numeric id>` when it has none.
pub open spec fn canonical_key_of(e: GraphEdge) -> Seq<char> {
    match e.legacy_id {
        Some(l) => l@,
        None => edge_prefix() + decimal(e.id.0 as nat),
    }
}

/// Whether edge `i` carries legacy id `key`.
pub open spec fn edge_has_legacy(g: RoutingGraph, i: int, key: Seq<char>) -> bool {
    match g.edges@[i].legacy_id {
        Some(l) => l@ == key,
        None => false,
    }
}

/// The lowest-indexed edge among the first `n` that carries legacy id `key`.
pub open spec fn first_legacy_edge_upto(g: RoutingGraph, key: Seq<char>, n: int) -> Option<int>
    decreases n,
{
    if n <= 0 {
        None
    } else {
        match first_legacy_edge_upto(g, key, n - 1) {
            Some(i) => Some(i),
            None => if edge_has_legacy(g, n - 1, key) { Some(n - 1) } else { None },
        }
    }
}

/// The lowest-indexed edge carrying legacy id `key`.
pub open spec fn first_legacy_edge(g: RoutingGraph, key: Seq<char>) -> Option<int> {
    first_legacy_edge_upto(g, key, g.edges@.len() as int)
}

/// Whether node `i` carries `key` among its legacy ids.
pub open spec fn node_has_legacy(g: RoutingGraph, i: int, key: Seq<char>) -> bool {
    exists|k: int| 0 <= k < g.nodes@[i].legacy_ids@.len() && #[trigger] g.nodes@[i].legacy_ids@[k]@ == key
}

/// The lowest-indexed node among the first `n` that carries legacy id `key`.
pub open spec fn first_legacy_node_upto(g: RoutingGraph, key: Seq<char>, n: int) -> Option<int>
    decreases n,
{
    if n <= 0 {
        None
    } else {
        match first_legacy_node_upto(g, key, n - 1) {
            Some(i) => Some(i),
            None => if node_has_legacy(g, n - 1, key) { Some(n - 1) } else { None },
        }
    }
}

/// The lowest-indexed node carrying legacy id `key`.
pub open spec fn first_legacy_node(g: RoutingGraph, key: Seq<char>) -> Option<int> {
    first_legacy_node_upto(g, key, g.nodes@.len() as int)
}

/// The edge id named by a key of the form `edge:<u32>`, if `key` has that form.
pub open spec fn parse_edge_key_spec(key: Seq<char>) -> Option<EdgeId> {
    if key.len() >= 5 && key.subrange(0, 5) == edge_prefix() {
        match parse_u32(key.subrange(5, key.len() as int)) {
            Some(v) => Some(EdgeId(v)),
            None => None,
        }
    } else {
        None
    }
}

/// The edge that answers to `key` exactly: the first edge with that legacy id,
/// else the edge whose numeric key it is, provided that key is canonical.
pub open spec fn edge_by_canonical_key_spec(g: RoutingGraph, key: Seq<char>) -> Option<EdgeId> {
    match first_legacy_edge(g, key) {
        Some(i) => Some(EdgeId(i as u32)),
        None => match parse_edge_key_spec(key) {
            Some(e) => if (e.0 as int) < g.edges@.len() && canonical_key_of(g.edges@[e.0 as int]) == key {
                Some(e)
            } else {
                None
            },
            None => None,
        },
    }
}

/// The edge a persisted key resolves to: the first edge with that legacy id,
/// else the edge named by `edge:<id>` when that is its canonical key.
pub open spec fn resolve_canonical_edge_key_spec(g: RoutingGraph, key: Seq<char>) -> Option<EdgeId> {
    edge_by_canonical_key_spec(g, key)
}

impl RoutingGraph {
    /// Each node and edge sits at the index of its id and edges join existing nodes.
    pub open spec fn well_formed(&self) -> bool {
        &&& self.nodes@.len() <= u32::MAX
        &&& self.edges@.len() <= u32::MAX
        &&& forall|i: int| 0 <= i < self.nodes@.len() ==> (#[trigger] self.nodes@[i]).id.0 == i
        &&& forall|i: int| 0 <= i < self.edges@.len() ==> {
            &&& (#[trigger] self.edges@[i]).id.0 == i
            &&& (self.edges@[i].from.0 as int) < self.nodes@.len()
            &&& (self.edges@[i].to.0 as int) < self.nodes@.len()
        }
    }

    /// No two edges share a canonical key.
    pub open spec fn canonical_keys_distinct(&self) -> bool {
        forall|i: int, j: int|
            0 <= i < self.edges@.len() && 0 <= j < self.edges@.len() && i != j ==>
                canonical_key_of(#[trigger] self.edges@[i]) != canonical_key_of(#[trigger] self.edges@[j])
    }

    /// Number of edges.
    pub fn edge_count(&self) -> (r: usize)
        ensures
            r == self.edges@.len(),
    {
        self.edges.len()
    }

    /// Number of nodes.
    pub fn node_count(&self) -> (r: usize)
        ensures
            r == self.nodes@.len(),
    {
        self.nodes.len()
    }

    /// The canonical key of edge `edge_id`.
    pub fn canonical_edge_key(&self, edge_id: EdgeId) -> (r: String)
        requires
            (edge_id.0 as int) < self.edges@.len(),
        ensures
            r@ == canonical_key_of(self.edges@[edge_id.0 as int]),
    {
        let edge = &self.edges[edge_id.0 as usize];
        proof {
            reveal_strlit("edge:");
            assert("edge:"@ =~= edge_prefix());
        }
        match &edge.legacy_id {
            Some(l) => l.clone(),
            None => prefixed_decimal("edge:", edge.id.0 as u64),
        }
    }

    /// Whether `link_id` is the canonical key of edge `edge_id` (the key a
    /// cached polyline is filed under).
    pub fn canonical_key_matches(&self, edge_id: EdgeId, link_id: &str) -> (r: bool)
        requires
            (edge_id.0 as int) < self.edges@.len(),
        ensures
            r == (canonical_key_of(self.edges@[edge_id.0 as int]) == link_id@),
    {
        let key = self.canonical_edge_key(edge_id);
        str_equal(key.as_str(), link_id)
    }

    /// The first edge whose legacy id is `key`.
    pub fn edge_by_legacy(&self, key: &str) -> (r: Option<EdgeId>)
        ensures
            r == (match first_legacy_edge(*self, key@) {
                Some(i) => Some(EdgeId(i as u32)),
                None => None,
            }),
    {
        let n = self.edges.len();
        let mut i: usize = 0;
        while i < n
            invariant
                n == self.edges@.len(),
                i <= n,
                first_legacy_edge_upto(*self, key@, i as int) is None,
            decreases n - i,
        {
            let hit = match &self.edges[i].legacy_id {
                Some(l) => str_equal(l.as_str(), key),
                None => false,
            };
            proof {
                match self.edges@[i as int].legacy_id {
                    Some(l) => { assert(hit == (l@ == key@)); },
                    None => {},
                }
            }
            if hit {
                assert(first_legacy_edge_upto(*self, key@, i + 1) == Some(i as int));
                proof { lemma_first_legacy_edge_stable(*self, key@, i as int + 1, n as int); }
                return Some(EdgeId(i as u32));
            }
            i = i + 1;
        }
        None
    }

    /// The first node that carries `key` among its legacy ids.
    pub fn node_by_legacy(&self, key: &str) -> (r: Option<NodeId>)
        ensures
            r == (match first_legacy_node(*self, key@) {
                Some(i) => Some(NodeId(i as u32)),
                None => None,
            }),
    {
        let n = self.nodes.len();
        let mut i: usize = 0;
        while i < n
            invariant
                n == self.nodes@.len(),
                i <= n,
                first_legacy_node_upto(*self, key@, i as int) is None,
            decreases n - i,
        {
            let ids = &self.nodes[i].legacy_ids;
            let m = ids.len();
            let mut k: usize = 0;
            let mut hit = false;
            while k < m
                invariant
                    ids@ == self.nodes@[i as int].legacy_ids@,
                    m == ids@.len(),
                    k <= m,
                    hit == exists|j: int| 0 <= j < k && #[trigger] ids@[j]@ == key@,
                decreases m - k,
            {
                if str_equal(ids[k].as_str(), key) {
                    hit = true;
                }
                k = k + 1;
            }
            assert(hit == node_has_legacy(*self, i as int, key@));
            if hit {
                assert(first_legacy_node_upto(*self, key@, i + 1) == Some(i as int));
                proof { lemma_first_legacy_node_stable(*self, key@, i as int + 1, n as int); }
                return Some(NodeId(i as u32));
            }
            i = i + 1;
        }
        None
    }

    /// The edge that answers to `key` exactly (see `edge_by_canonical_key_spec`).
    pub fn edge_by_canonical_key(&self, key: &str) -> (r: Option<EdgeId>)
        requires
            self.well_formed(),
        ensures
            r == edge_by_canonical_key_spec(*self, key@),
    {
        proof { lemma_first_legacy_edge_hit(*self, key@, self.edges@.len() as int); }
        if let Some(edge_id) = self.edge_by_legacy(key) {
            let k = self.canonical_edge_key(edge_id);
            if str_equal(k.as_str(), key) {
                return Some(edge_id);
            }
        }
        let raw = match parse_edge_key(key) {
            Some(e) => e,
            None => return None,
        };
        if (raw.0 as usize) >= self.edges.len() {
            return None;
        }
        let k = self.canonical_edge_key(raw);
        if str_equal(k.as_str(), key) { Some(raw) } else { None }
    }

    /// The edge a persisted key resolves to (the restore path's lookup).
    pub fn resolve_canonical_edge_key(&self, key: &str) -> (r: Option<EdgeId>)
        requires
            self.well_formed(),
        ensures
            r == resolve_canonical_edge_key_spec(*self, key@),
    {
        proof { lemma_first_legacy_edge_hit(*self, key@, self.edges@.len() as int); }
        if let Some(edge_id) = self.edge_by_legacy(key) {
            return Some(edge_id);
        }
        if let Some(edge_id) = parse_edge_key(key) {
            if (edge_id.0 as usize) < self.edges.len() {
                let k = self.canonical_edge_key(edge_id);
                if str_equal(k.as_str(), key) {
                    return Some(edge_id);
                }
            }
        }
        None
    }
}

/// An edge found by its key carries exactly that canonical key.
pub proof fn lemma_edge_by_canonical_key_sound(g: RoutingGraph, key: Seq<char>)
    requires
        g.well_formed(),
    ensures
        match edge_by_canonical_key_spec(g, key) {
            Some(e) => (e.0 as int) < g.edges@.len() && canonical_key_of(g.edges@[e.0 as int]) == key,
            None => true,
        },
{
    lemma_first_legacy_edge_hit(g, key, g.edges@.len() as int);
}

/// Looking an edge up by its own canonical key finds that edge again, in a
/// graph whose edges have distinct canonical keys.
pub proof fn lemma_canonical_key_round_trip(g: RoutingGraph, e: EdgeId)
    requires
        g.well_formed(),
        g.canonical_keys_distinct(),
        (e.0 as int) < g.edges@.len(),
    ensures
        edge_by_canonical_key_spec(g, canonical_key_of(g.edges@[e.0 as int])) == Some(e),
{
    let i = e.0 as int;
    let key = canonical_key_of(g.edges@[i]);
    lemma_first_legacy_edge_hit(g, key, g.edges@.len() as int);
    match first_legacy_edge(g, key) {
        Some(j) => {
            assert(canonical_key_of(g.edges@[j]) == key);
            assert(j == i);
        },
        None => {
            match g.edges@[i].legacy_id {
                Some(l) => {
                    assert(edge_has_legacy(g, i, key));
                },
                None => {
                    let n = e.0;
                    crate::text::lemma_parse_decimal(n);
                    assert(key.subrange(0, 5) =~= edge_prefix());
                    assert(key.subrange(5, key.len() as int) =~= decimal(n as nat));
                },
            }
        },
    }
}

/// Reads the edge id out of a key of the form `edge:<u32>`.
pub fn parse_edge_key(key: &str) -> (r: Option<EdgeId>)
    ensures
        r == parse_edge_key_spec(key@),
{
    proof {
        reveal_strlit("edge:");
        assert("edge:"@ =~= edge_prefix());
    }
    if !starts_with(key, "edge:") {
        return None;
    }
    let n = key.unicode_len();
    let rest = key.substring_char(5, n);
    match parse_u32_str(rest) {
        Some(v) => Some(EdgeId(v)),
        None => None,
    }
}

/// A legacy match lies inside the graph and carries the key.
pub proof fn lemma_first_legacy_edge_hit(g: RoutingGraph, key: Seq<char>, n: int)
    requires
        n <= g.edges@.len(),
    ensures
        match first_legacy_edge_upto(g, key, n) {
            Some(i) => 0 <= i < n && edge_has_legacy(g, i, key),
            None => forall|i: int| 0 <= i < n ==> !edge_has_legacy(g, i, key),
        },
    decreases n,
{
    if n > 0 {
        lemma_first_legacy_edge_hit(g, key, n - 1);
    }
}

/// A legacy node match lies inside the graph and carries the key.
pub proof fn lemma_first_legacy_node_hit(g: RoutingGraph, key: Seq<char>, n: int)
    requires
        n <= g.nodes@.len(),
    ensures
        match first_legacy_node_upto(g, key, n) {
            Some(i) => 0 <= i < n && node_has_legacy(g, i, key),
            None => forall|i: int| 0 <= i < n ==> !node_has_legacy(g, i, key),
        },
    decreases n,
{
    if n > 0 {
        lemma_first_legacy_node_hit(g, key, n - 1);
    }
}

/// Once found among the first `k` nodes, the first legacy match stays put.
proof fn lemma_first_legacy_node_stable(g: RoutingGraph, key: Seq<char>, k: int, n: int)
    requires
        0 <= k <= n,
        first_legacy_node_upto(g, key, k) is Some,
    ensures
        first_legacy_node_upto(g, key, n) == first_legacy_node_upto(g, key, k),
    decreases n - k,
{
    if k < n {
        lemma_first_legacy_node_stable(g, key, k, n - 1);
    }
}

/// Once found among the first `k` edges, the first legacy match stays put.
proof fn lemma_first_legacy_edge_stable(g: RoutingGraph, key: Seq<char>, k: int, n: int)
    requires
        0 <= k <= n,
        first_legacy_edge_upto(g, key, k) is Some,
    ensures
        first_legacy_edge_upto(g, key, n) == first_legacy_edge_upto(g, key, k),
    decreases n - k,
{
    if k < n {
        lemma_first_legacy_edge_stable(g, key, k, n - 1);
    }
}

} // verus!

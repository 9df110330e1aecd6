//! Route choice for walking agents: where a plan stage leads, how a flow
//! field turns into route steps, and how an agent moves along its route.
use vstd::prelude::*;

use crate::assoc::{AssocList, StableKey};
use crate::graph::{RoutingGraph, canonical_key_of, edge_by_canonical_key_spec, first_legacy_node};
use crate::ids::{AgentId, ChunkCoord, EdgeId, NodeId};
use crate::plan::{AgentState, WalkPlan, WalkPoint, WaitingAgents, complete_walk_stage_at_destination, enqueue_once, finish_walk_stage, state_matches};
use crate::records::PlanStage;
use crate::text::{ends_with, starts_with, str_equal};
use crate::wander::wander_result;

verus! {

/// How an agent travels on an edge.
#[derive(Debug, Clone, Copy, PartialEq, Eq, Hash, Structural)]
pub enum ModeState {
    Walking,
    Driving,
    OnTram,
}

/// Which routing rules apply to a route.
#[derive(Debug, Clone, Copy, PartialEq, Eq, Hash, Structural)]
pub enum RoutingProfileKey {
    Walk,
    WalkTransit,
    Car,
    Tram,
}

/// One edge of an agent's route.
#[derive(Debug, Clone, PartialEq, Eq)]
pub struct RouteStep {
    pub edge_id: EdgeId,
    pub mode: ModeState,
    pub canonical_edge_key: String,
}

/// The route an agent follows towards `destination`; `cursor` indexes the
/// step it is on.
#[derive(Debug, Clone, PartialEq, Eq)]
pub struct ActiveRoute {
    pub destination: NodeId,
    pub profile: RoutingProfileKey,
    pub steps: Vec<RouteStep>,
    pub cursor: usize,
}

/// Market node each economically attributed citizen is bound to.
#[derive(Debug)]
pub struct CitizenEconomicTargets {
    targets: AssocList<AgentId, NodeId>,
}

impl CitizenEconomicTargets {
    #[verifier::type_invariant]
    spec fn well_formed(&self) -> bool {
        self.targets.well_formed()
    }

    /// Target node by agent id.
    pub closed spec fn targets(&self) -> Map<Seq<char>, NodeId> {
        self.targets.map()
    }

    /// No citizen attributed.
    pub fn new() -> (r: Self)
        ensures
            r.targets() =~= Map::empty(),
    {
        CitizenEconomicTargets { targets: AssocList::new() }
    }

    /// Binds `agent` to `node`.
    pub fn insert(&mut self, agent: AgentId, node: NodeId)
        ensures
            final(self).targets() == old(self).targets().insert(agent@, node),
    {
        proof { use_type_invariant(&*self); }
        let mut table = AssocList::new();
        std::mem::swap(&mut table, &mut self.targets);
        table.insert(agent, node);
        self.targets = table;
    }

    /// The node `agent` is bound to.
    pub fn get(&self, agent: &AgentId) -> (r: Option<NodeId>)
        ensures
            r == (if self.targets().contains_key(agent@) { Some(self.targets()[agent@]) } else { None }),
    {
        proof { use_type_invariant(self); }
        match self.targets.get(agent) {
            Some(n) => Some(*n),
            None => None,
        }
    }
}

impl Default for CitizenEconomicTargets {
    fn default() -> (r: Self)
        ensures
            r.targets() =~= Map::empty(),
    {
        CitizenEconomicTargets::new()
    }
}

/// Whether an activity id names the away-from-home leg of a citizen:
/// `activity:destination`, or `activity:…:destination`.
pub open spec fn is_economic_destination_spec(activity_id: Seq<char>) -> bool {
    let prefix = seq!['a', 'c', 't', 'i', 'v', 'i', 't', 'y', ':'];
    let suffix = seq![':', 'd', 'e', 's', 't', 'i', 'n', 'a', 't', 'i', 'o', 'n'];
    activity_id == prefix + seq!['d', 'e', 's', 't', 'i', 'n', 'a', 't', 'i', 'o', 'n']
        || (activity_id.len() >= prefix.len() && activity_id.subrange(0, prefix.len() as int) == prefix
            && activity_id.len() >= suffix.len()
            && activity_id.subrange(activity_id.len() - suffix.len(), activity_id.len() as int) == suffix)
}

/// Whether `activity_id` is the away-from-home leg of a citizen.
pub fn is_economic_destination_activity(activity_id: &str) -> (r: bool)
    ensures
        r == is_economic_destination_spec(activity_id@),
{
    proof {
        reveal_strlit("activity:destination");
        reveal_strlit("activity:");
        reveal_strlit(":destination");
        assert("activity:destination"@ =~= seq!['a', 'c', 't', 'i', 'v', 'i', 't', 'y', ':'] + seq!['d', 'e', 's', 't', 'i', 'n', 'a', 't', 'i', 'o', 'n']);
        assert("activity:"@ =~= seq!['a', 'c', 't', 'i', 'v', 'i', 't', 'y', ':']);
        assert(":destination"@ =~= seq![':', 'd', 'e', 's', 't', 'i', 'n', 'a', 't', 'i', 'o', 'n']);
    }
    str_equal(activity_id, "activity:destination")
        || (starts_with(activity_id, "activity:") && ends_with(activity_id, ":destination"))
}

/// The node a plan stage routes to, given the node the spatial index finds
/// nearest the stage's activity coordinate (if an index is installed): a stop
/// stage goes to the stop's node; an activity stage goes to the activity's
/// node, else to that nearest node; other stages have no destination.
pub open spec fn destination_for_stage_spec(g: RoutingGraph, stage: PlanStage, nearest: Option<NodeId>) -> Option<NodeId> {
    match stage {
        PlanStage::WalkToStop { stop_id, .. } => match first_legacy_node(g, stop_id@) {
            Some(i) => Some(NodeId(i as u32)),
            None => None,
        },
        PlanStage::WalkToActivity { activity_id, .. } => match first_legacy_node(g, activity_id@) {
            Some(i) => Some(NodeId(i as u32)),
            None => nearest,
        },
        _ => None,
    }
}

/// The node plan stage `stage` routes to (see `destination_for_stage_spec`).
pub fn destination_for_stage(graph: &RoutingGraph, stage: &PlanStage, nearest: Option<NodeId>) -> (r: Option<NodeId>)
    ensures
        r == destination_for_stage_spec(*graph, *stage, nearest),
{
    match stage {
        PlanStage::WalkToStop { stop_id, .. } => graph.node_by_legacy(stop_id.as_str()),
        PlanStage::WalkToActivity { activity_id, .. } => match graph.node_by_legacy(activity_id.as_str()) {
            Some(n) => Some(n),
            None => nearest,
        },
        _ => None,
    }
}

/// The destination after the economic override: an attributed citizen's
/// away-from-home leg goes to its bound market node; everything else keeps
/// the geometric destination.
pub open spec fn economic_destination_spec(stage: PlanStage, agent: Seq<char>, geometric: NodeId, targets: Option<Map<Seq<char>, NodeId>>) -> NodeId {
    match stage {
        PlanStage::WalkToActivity { activity_id, .. } => {
            if is_economic_destination_spec(activity_id@) && targets is Some && targets->0.contains_key(agent) {
                targets->0[agent]
            } else {
                geometric
            }
        },
        _ => geometric,
    }
}

/// Applies the economic override to the geometric destination of `stage`.
pub fn economic_destination(stage: &PlanStage, agent: &AgentId, geometric: NodeId, targets: Option<&CitizenEconomicTargets>) -> (r: NodeId)
    ensures
        r == economic_destination_spec(*stage, agent@, geometric, match targets { Some(t) => Some(t.targets()), None => None }),
{
    match stage {
        PlanStage::WalkToActivity { activity_id, .. } => {
            if is_economic_destination_activity(activity_id.as_str()) {
                if let Some(t) = targets {
                    if let Some(node) = t.get(agent) {
                        return node;
                    }
                }
            }
            geometric
        },
        _ => geometric,
    }
}

/// The home leg is never redirected to a market, whatever the targets.
pub proof fn lemma_home_leg_not_overridden(link_id: String, agent: Seq<char>, geometric: NodeId, targets: Option<Map<Seq<char>, NodeId>>, activity_id: String)
    requires
        activity_id@ == seq!['a', 'c', 't', 'i', 'v', 'i', 't', 'y', ':', 'h', 'o', 'm', 'e'],
    ensures
        economic_destination_spec(PlanStage::WalkToActivity { link_id, activity_id }, agent, geometric, targets) == geometric,
{
    let s = activity_id@;
    let suffix = seq![':', 'd', 'e', 's', 't', 'i', 'n', 'a', 't', 'i', 'o', 'n'];
    assert(s.subrange(s.len() - suffix.len(), s.len() as int) != suffix) by {
        assert(s.subrange(s.len() - suffix.len(), s.len() as int)[0] == 'c');
    }
    assert(s.len() != 20);
}

/// The node an agent walking on `key` starts routing from: the edge's end
/// once it reached it, else the edge's start.
pub open spec fn route_origin_spec(g: RoutingGraph, key: Seq<char>, at: WalkPoint) -> Option<NodeId> {
    match edge_by_canonical_key_spec(g, key) {
        Some(e) => Some(if at == WalkPoint::End { g.edges@[e.0 as int].to } else { g.edges@[e.0 as int].from }),
        None => None,
    }
}

/// The node an agent walking on `key` starts routing from.
pub fn current_route_origin(graph: &RoutingGraph, key: &str, at: WalkPoint) -> (r: Option<NodeId>)
    requires
        graph.well_formed(),
    ensures
        r == route_origin_spec(*graph, key@, at),
{
    proof { crate::graph::lemma_edge_by_canonical_key_sound(*graph, key@); }
    match graph.edge_by_canonical_key(key) {
        Some(e) => {
            let edge = &graph.edges[e.0 as usize];
            Some(if at == WalkPoint::End { edge.to } else { edge.from })
        },
        None => None,
    }
}

/// Whether an agent walking on `key` stands on `node`: at the start of the
/// edge when that is `node`, or at its end when that is `node`.
pub open spec fn at_route_endpoint_spec(g: RoutingGraph, key: Seq<char>, at: WalkPoint, node: NodeId) -> Option<bool> {
    match edge_by_canonical_key_spec(g, key) {
        Some(e) => Some((at == WalkPoint::Start && g.edges@[e.0 as int].from == node)
            || (at == WalkPoint::End && g.edges@[e.0 as int].to == node)),
        None => None,
    }
}

/// Whether an agent walking on `key` stands on `node`.
pub fn is_at_route_endpoint(graph: &RoutingGraph, key: &str, at: WalkPoint, node: NodeId) -> (r: Option<bool>)
    requires
        graph.well_formed(),
    ensures
        r == at_route_endpoint_spec(*graph, key@, at, node),
{
    proof { crate::graph::lemma_edge_by_canonical_key_sound(*graph, key@); }
    match graph.edge_by_canonical_key(key) {
        Some(e) => {
            let edge = &graph.edges[e.0 as usize];
            Some((at == WalkPoint::Start && edge.from == node) || (at == WalkPoint::End && edge.to == node))
        },
        None => None,
    }
}

/// What a flow field says at one (node, mode) state: the edge to take next
/// (none at a dead end) and the mode to travel it in.
#[derive(Debug, Clone, Copy)]
pub struct FlowEntry {
    pub node: NodeId,
    pub mode: ModeState,
    pub next_edge: Option<EdgeId>,
    pub next_mode: ModeState,
}

/// A flow field towards `destination`: for each listed state, where to go next.
#[derive(Debug, Clone)]
pub struct FlowField {
    pub destination: NodeId,
    pub entries: Vec<FlowEntry>,
}

/// The first entry for `(node, mode)` at index `i` or later.
pub open spec fn entry_from(entries: Seq<FlowEntry>, node: NodeId, mode: ModeState, i: int) -> Option<FlowEntry>
    decreases entries.len() - i,
{
    if i < 0 || i >= entries.len() {
        None
    } else if entries[i].node == node && entries[i].mode == mode {
        Some(entries[i])
    } else {
        entry_from(entries, node, mode, i + 1)
    }
}

/// The entry the field holds for `(node, mode)` (the first one listed).
pub open spec fn field_entry(f: FlowField, node: NodeId, mode: ModeState) -> Option<FlowEntry> {
    entry_from(f.entries@, node, mode, 0)
}

/// Every edge the field points to exists in `g`.
pub open spec fn field_fits(g: RoutingGraph, f: FlowField) -> bool {
    forall|i: int| 0 <= i < f.entries@.len() ==> match (#[trigger] f.entries@[i]).next_edge {
        Some(e) => (e.0 as int) < g.edges@.len(),
        None => true,
    }
}

impl FlowField {
    /// The entry for `(node, mode)`.
    pub fn entry(&self, node: NodeId, mode: ModeState) -> (r: Option<FlowEntry>)
        ensures
            r == field_entry(*self, node, mode),
    {
        let n = self.entries.len();
        let mut i: usize = 0;
        while i < n
            invariant
                n == self.entries@.len(),
                i <= n,
                field_entry(*self, node, mode) == entry_from(self.entries@, node, mode, i as int),
            decreases n - i,
        {
            let e = self.entries[i];
            if e.node == node && e.mode == mode {
                return Some(e);
            }
            i = i + 1;
        }
        None
    }
}

/// The entry found for `(node, mode)` is one for that state, and its next
/// edge exists when the field fits the graph.
proof fn lemma_field_entry_fits(g: RoutingGraph, f: FlowField, node: NodeId, mode: ModeState, i: int)
    requires
        field_fits(g, f),
        0 <= i,
    ensures
        match entry_from(f.entries@, node, mode, i) {
            Some(e) => e.node == node && e.mode == mode && match e.next_edge {
                Some(x) => (x.0 as int) < g.edges@.len(),
                None => true,
            },
            None => true,
        },
    decreases f.entries@.len() - i,
{
    if i < f.entries@.len() {
        assert(f.entries@[i] == f.entries@[i]);
        lemma_field_entry_fits(g, f, node, mode, i + 1);
    }
}

/// The `(edge, mode)` pairs of the route the field gives from `(node, mode)`,
/// having already visited `seen` and taken `taken` steps: `None` when the walk
/// meets a state twice, reaches a state without entry or next edge, or takes
/// more steps than the graph has edges.
pub open spec fn field_route(
    g: RoutingGraph,
    f: FlowField,
    node: NodeId,
    mode: ModeState,
    seen: Set<(NodeId, ModeState)>,
    taken: nat,
) -> Option<Seq<(EdgeId, ModeState)>>
    decreases g.edges@.len() + 1 - taken,
{
    if node == f.destination {
        Some(Seq::empty())
    } else if seen.contains((node, mode)) {
        None
    } else {
        match field_entry(f, node, mode) {
            Some(entry) => match entry.next_edge {
                Some(e) => if taken + 1 > g.edges@.len() {
                    None
                } else {
                    match field_route(g, f, g.edges@[e.0 as int].to, entry.next_mode, seen.insert((node, mode)), taken + 1) {
                        Some(rest) => Some(seq![(e, entry.next_mode)] + rest),
                        None => None,
                    }
                },
                None => None,
            },
            None => None,
        }
    }
}

/// `prefix` followed by the rest of a route, when there is one.
pub open spec fn route_then(prefix: Seq<(EdgeId, ModeState)>, rest: Option<Seq<(EdgeId, ModeState)>>) -> Option<Seq<(EdgeId, ModeState)>> {
    match rest {
        Some(r) => Some(prefix + r),
        None => None,
    }
}

/// Route steps `steps` are the pairs `s`, each with its edge's canonical key.
pub open spec fn steps_match(g: RoutingGraph, steps: Seq<RouteStep>, s: Seq<(EdgeId, ModeState)>) -> bool {
    &&& steps.len() == s.len()
    &&& forall|i: int| 0 <= i < s.len() ==> {
        &&& (#[trigger] steps[i]).edge_id == s[i].0
        &&& steps[i].mode == s[i].1
        &&& (s[i].0.0 as int) < g.edges@.len()
        &&& steps[i].canonical_edge_key@ == canonical_key_of(g.edges@[s[i].0.0 as int])
    }
}

/// Whether `(node, mode)` occurs in `seen`.
fn state_visited(seen: &Vec<(NodeId, ModeState)>, node: NodeId, mode: ModeState) -> (r: bool)
    ensures
        r == seen@.contains((node, mode)),
{
    let mut k: usize = 0;
    while k < seen.len()
        invariant
            k <= seen@.len(),
            forall|j: int| 0 <= j < k ==> seen@[j] != (node, mode),
        decreases seen@.len() - k,
    {
        let (sn, sm) = seen[k];
        if sn == node && sm == mode {
            assert(seen@[k as int] == (node, mode));
            return true;
        }
        k = k + 1;
    }
    false
}

/// Follows the flow field from `origin` in `initial_mode` to the field's
/// destination and returns the steps taken (see `field_route`).
pub fn materialize_route_steps(graph: &RoutingGraph, field: &FlowField, origin: NodeId, initial_mode: ModeState) -> (r: Option<Vec<RouteStep>>)
    requires
        graph.well_formed(),
        field_fits(*graph, *field),
    ensures
        match field_route(*graph, *field, origin, initial_mode, Set::empty(), 0) {
            Some(s) => r is Some && steps_match(*graph, r->0@, s),
            None => r is None,
        },
{
    let mut steps: Vec<RouteStep> = Vec::new();
    let mut node = origin;
    let mut mode = initial_mode;
    let mut seen: Vec<(NodeId, ModeState)> = Vec::new();
    let ghost mut seen_set: Set<(NodeId, ModeState)> = Set::empty();
    let ghost mut prefix: Seq<(EdgeId, ModeState)> = Seq::empty();
    let ghost whole = field_route(*graph, *field, origin, initial_mode, Set::empty(), 0);
    assert(whole == route_then(prefix, field_route(*graph, *field, node, mode, seen_set, 0))) by {
        match field_route(*graph, *field, origin, initial_mode, Set::empty(), 0) {
            Some(rest) => { assert(prefix + rest =~= rest); },
            None => {},
        }
    }
    while node != field.destination
        invariant
            graph.well_formed(),
            field_fits(*graph, *field),
            steps_match(*graph, steps@, prefix),
            steps@.len() <= graph.edges@.len(),
            forall|p: (NodeId, ModeState)| seen_set.contains(p) <==> seen@.contains(p),
            whole == field_route(*graph, *field, origin, initial_mode, Set::empty(), 0),
            whole == route_then(prefix, field_route(*graph, *field, node, mode, seen_set, steps@.len() as nat)),
        decreases graph.edges@.len() + 1 - steps@.len(),
    {
        let ghost taken = steps@.len() as nat;
        let ghost set0 = seen_set;
        let ghost seen0 = seen@;
        let ghost prefix0 = prefix;
        if state_visited(&seen, node, mode) {
            assert(set0.contains((node, mode)));
            return None;
        }
        assert(!seen@.contains((node, mode)));
        assert(!set0.contains((node, mode)));
        seen.push((node, mode));
        proof {
            seen_set = set0.insert((node, mode));
            assert(seen@ == seen0.push((node, mode)));
            assert forall|p: (NodeId, ModeState)| seen_set.contains(p) <==> seen@.contains(p) by {
                if seen0.contains(p) {
                    let j = choose|j: int| 0 <= j < seen0.len() && seen0[j] == p;
                    assert(seen@[j] == p);
                }
                if seen@.contains(p) && p != (node, mode) {
                    let j = choose|j: int| 0 <= j < seen@.len() && seen@[j] == p;
                    assert(j != seen0.len());
                    assert(seen0[j] == p);
                }
                if p == (node, mode) {
                    assert(seen@[seen0.len() as int] == p);
                }
            }
        }
        proof { lemma_field_entry_fits(*graph, *field, node, mode, 0); }
        let entry = match field.entry(node, mode) {
            Some(e) => e,
            None => return None,
        };
        let edge_id = match entry.next_edge {
            Some(e) => e,
            None => return None,
        };
        let to = graph.edges[edge_id.0 as usize].to;
        let key = graph.canonical_edge_key(edge_id);
        let ghost steps0 = steps@;
        steps.push(RouteStep { edge_id, mode: entry.next_mode, canonical_edge_key: key });
        proof {
            prefix = prefix0.push((edge_id, entry.next_mode));
            assert forall|i: int| 0 <= i < prefix.len() implies {
                &&& (#[trigger] steps@[i]).edge_id == prefix[i].0
                &&& steps@[i].mode == prefix[i].1
                &&& (prefix[i].0.0 as int) < graph.edges@.len()
                &&& steps@[i].canonical_edge_key@ == canonical_key_of(graph.edges@[prefix[i].0.0 as int])
            } by {
                if i < prefix0.len() {
                    assert(steps@[i] == steps0[i]);
                }
            }
        }
        if steps.len() > graph.edges.len() {
            return None;
        }
        node = to;
        mode = entry.next_mode;
        proof {
            match field_route(*graph, *field, node, mode, seen_set, taken + 1) {
                Some(rest) => {
                    assert(prefix0 + (seq![(edge_id, entry.next_mode)] + rest) =~= prefix + rest);
                },
                None => {},
            }
        }
    }
    proof {
        assert(prefix + Seq::<(EdgeId, ModeState)>::empty() =~= prefix);
    }
    Some(steps)
}

/// Each edge the field points to exists and leaves the node of its entry.
pub open spec fn field_consistent(g: RoutingGraph, f: FlowField) -> bool {
    forall|i: int| 0 <= i < f.entries@.len() ==> match (#[trigger] f.entries@[i]).next_edge {
        Some(e) => (e.0 as int) < g.edges@.len() && g.edges@[e.0 as int].from == f.entries@[i].node,
        None => true,
    }
}

/// The edges of `s`, in order, form a walk in `g` from `origin` to `dest`.
pub open spec fn is_walk(g: RoutingGraph, s: Seq<(EdgeId, ModeState)>, origin: NodeId, dest: NodeId) -> bool {
    &&& s.len() == 0 ==> origin == dest
    &&& s.len() > 0 ==> {
        &&& g.edges@[s[0].0.0 as int].from == origin
        &&& g.edges@[s[s.len() - 1].0.0 as int].to == dest
        &&& forall|i: int, j: int| 0 <= i && j == i + 1 && j < s.len() ==>
            g.edges@[(#[trigger] s[i]).0.0 as int].to == g.edges@[(#[trigger] s[j]).0.0 as int].from
    }
}

/// The entry found for `(node, mode)` in a consistent field leaves `node`.
proof fn lemma_field_entry_consistent(g: RoutingGraph, f: FlowField, node: NodeId, mode: ModeState, i: int)
    requires
        field_consistent(g, f),
        0 <= i,
    ensures
        match entry_from(f.entries@, node, mode, i) {
            Some(e) => e.node == node && e.mode == mode && match e.next_edge {
                Some(x) => (x.0 as int) < g.edges@.len() && g.edges@[x.0 as int].from == node,
                None => true,
            },
            None => true,
        },
    decreases f.entries@.len() - i,
{
    if i < f.entries@.len() {
        assert(f.entries@[i] == f.entries@[i]);
        lemma_field_entry_consistent(g, f, node, mode, i + 1);
    }
}

/// Following a field whose entries point along edges leaving their nodes
/// yields a walk from the start node to the field's destination.
pub proof fn lemma_field_route_is_walk(
    g: RoutingGraph,
    f: FlowField,
    node: NodeId,
    mode: ModeState,
    seen: Set<(NodeId, ModeState)>,
    taken: nat,
)
    requires
        field_consistent(g, f),
        field_route(g, f, node, mode, seen, taken) is Some,
    ensures
        is_walk(g, field_route(g, f, node, mode, seen, taken)->0, node, f.destination),
    decreases g.edges@.len() + 1 - taken,
{
    if node != f.destination {
        lemma_field_entry_consistent(g, f, node, mode, 0);
        let entry = field_entry(f, node, mode)->0;
        let e = entry.next_edge->0;
        let to = g.edges@[e.0 as int].to;
        let seen2 = seen.insert((node, mode));
        lemma_field_route_is_walk(g, f, to, entry.next_mode, seen2, taken + 1);
        let rest = field_route(g, f, to, entry.next_mode, seen2, taken + 1)->0;
        let s = seq![(e, entry.next_mode)] + rest;
        assert(s[0] == (e, entry.next_mode));
        assert forall|i: int, j: int| 0 <= i && j == i + 1 && j < s.len() implies
            g.edges@[(#[trigger] s[i]).0.0 as int].to == g.edges@[(#[trigger] s[j]).0.0 as int].from by {
            if i > 0 {
                assert(s[i] == rest[i - 1]);
                assert(s[j] == rest[j - 1]);
            } else {
                assert(s[j] == rest[0]);
            }
        }
        if rest.len() > 0 {
            assert(s[s.len() - 1] == rest[rest.len() - 1]);
        }
    }
}

/// A materialized route is never longer than the graph has edges.
pub proof fn lemma_field_route_bounded(
    g: RoutingGraph,
    f: FlowField,
    node: NodeId,
    mode: ModeState,
    seen: Set<(NodeId, ModeState)>,
    taken: nat,
)
    requires
        field_route(g, f, node, mode, seen, taken) is Some,
    ensures
        taken + field_route(g, f, node, mode, seen, taken)->0.len() <= g.edges@.len()
            || field_route(g, f, node, mode, seen, taken)->0.len() == 0,
    decreases g.edges@.len() + 1 - taken,
{
    if node != f.destination {
        let entry = field_entry(f, node, mode)->0;
        let e = entry.next_edge->0;
        lemma_field_route_bounded(g, f, g.edges@[e.0 as int].to, entry.next_mode, seen.insert((node, mode)), taken + 1);
    }
}

/// What one tick of route following decided for an agent.
#[derive(Debug, Clone, Copy, PartialEq, Eq, Structural)]
pub enum RouteAdvance {
    /// The route no longer matches the agent or the graph: it is dropped and
    /// counted as a failed assignment.
    Invalidated,
    /// The agent is still on the current step.
    Continue,
    /// The agent moved on to the next step of the route.
    NextStep,
    /// The agent reached the route's destination and finished its walk stage.
    Arrived,
}

/// Whether the step under the route's cursor is the link `link` the agent
/// walks, and that link still names the step's edge.
pub open spec fn current_step_valid(g: RoutingGraph, route: ActiveRoute, link: Seq<char>) -> bool {
    &&& route.cursor < route.steps@.len()
    &&& route.steps@[route.cursor as int].canonical_edge_key@ == link
    &&& edge_by_canonical_key_spec(g, link) == Some(route.steps@[route.cursor as int].edge_id)
}

/// Whether the step after the cursor still names its edge and that edge
/// starts where the current one ends.
pub open spec fn next_step_valid(g: RoutingGraph, route: ActiveRoute) -> bool {
    let cur = route.steps@[route.cursor as int];
    let next = route.steps@[route.cursor + 1];
    &&& edge_by_canonical_key_spec(g, next.canonical_edge_key@) == Some(next.edge_id)
    &&& g.edges@[cur.edge_id.0 as int].to == g.edges@[next.edge_id.0 as int].from
}

/// The decision of one tick of route following for an agent in `state` with
/// plan `stages`/`cursor`/`cyclic` and route `route`; `nearest` is the node
/// nearest the current activity's coordinate, if known.
pub open spec fn route_advance_outcome(
    g: RoutingGraph,
    state: AgentState,
    stages: Seq<PlanStage>,
    cursor: nat,
    cyclic: bool,
    route: ActiveRoute,
    nearest: Option<NodeId>,
) -> RouteAdvance {
    match state {
        AgentState::Walking { link_id, at } => {
            if !current_step_valid(g, route, link_id@) {
                RouteAdvance::Invalidated
            } else if at != WalkPoint::End {
                RouteAdvance::Continue
            } else if route.cursor + 1 < route.steps@.len() {
                if next_step_valid(g, route) { RouteAdvance::NextStep } else { RouteAdvance::Invalidated }
            } else if g.edges@[route.steps@[route.cursor as int].edge_id.0 as int].to != route.destination {
                RouteAdvance::Invalidated
            } else if cursor >= stages.len() {
                RouteAdvance::Invalidated
            } else if destination_for_stage_spec(g, stages[cursor as int], nearest) != Some(route.destination) {
                RouteAdvance::Invalidated
            } else if finish_walk_stage(stages[cursor as int], stages.len(), cursor, cyclic, link_id@) is None {
                RouteAdvance::Invalidated
            } else {
                RouteAdvance::Arrived
            }
        },
        _ => RouteAdvance::Invalidated,
    }
}

/// A walking agent at the end of the last step of a route that still
/// matches the graph arrives when its walk stage leads to the route's
/// destination: a stop stage whose stop is that node, or an activity stage
/// whose activity is that node or, naming no node, whose nearest node is.
pub proof fn lemma_route_end_arrives(
    g: RoutingGraph,
    link_id: String,
    stages: Seq<PlanStage>,
    cursor: nat,
    cyclic: bool,
    route: ActiveRoute,
    nearest: Option<NodeId>,
)
    requires
        route.cursor + 1 == route.steps@.len(),
        route.steps@[route.cursor as int].canonical_edge_key@ == link_id@,
        edge_by_canonical_key_spec(g, link_id@) == Some(route.steps@[route.cursor as int].edge_id),
        g.edges@[route.steps@[route.cursor as int].edge_id.0 as int].to == route.destination,
        cursor < stages.len(),
        match stages[cursor as int] {
            PlanStage::WalkToStop { stop_id, .. } => first_legacy_node(g, stop_id@) == Some(route.destination.0 as int),
            PlanStage::WalkToActivity { activity_id, .. } => first_legacy_node(g, activity_id@) == Some(route.destination.0 as int)
                || (first_legacy_node(g, activity_id@) is None && nearest == Some(route.destination)),
            _ => false,
        },
    ensures
        route_advance_outcome(g, AgentState::Walking { link_id, at: WalkPoint::End }, stages, cursor, cyclic, route, nearest)
            == RouteAdvance::Arrived,
{
}

/// One tick of route following for an agent (see `route_advance_outcome`):
/// at the end of a step it moves to the next one, and at the end of the
/// route it completes the current walk stage.
pub fn route_advance(
    agent: &AgentId,
    state: &mut AgentState,
    plan: &mut WalkPlan,
    route: &mut ActiveRoute,
    graph: &RoutingGraph,
    nearest: Option<NodeId>,
    waiting: &mut WaitingAgents,
) -> (r: RouteAdvance)
    requires
        graph.well_formed(),
    ensures
        r == route_advance_outcome(*graph, *old(state), old(plan).stages@, old(plan).cursor as nat, old(plan).cyclic, *old(route), nearest),
        final(plan).stages == old(plan).stages,
        final(plan).cyclic == old(plan).cyclic,
        final(route).steps == old(route).steps,
        final(route).destination == old(route).destination,
        final(route).profile == old(route).profile,
        r == RouteAdvance::NextStep ==> {
            &&& final(route).cursor == old(route).cursor + 1
            &&& *final(state) matches AgentState::Walking { link_id, at }
            &&& link_id@ == old(route).steps@[old(route).cursor + 1].canonical_edge_key@
            &&& at == WalkPoint::Start
            &&& final(plan).cursor == old(plan).cursor
            &&& final(waiting).queues() == old(waiting).queues()
        },
        r == RouteAdvance::Arrived ==> {
            let stage = old(plan).stages@[old(plan).cursor as int];
            let arrival = old(route).steps@[old(route).cursor as int].canonical_edge_key@;
            let (t, c) = finish_walk_stage(stage, old(plan).stages@.len(), old(plan).cursor as nat, old(plan).cyclic, arrival)->0;
            &&& final(route).cursor == old(route).cursor
            &&& state_matches(*final(state), t)
            &&& final(plan).cursor == c
            &&& stage matches PlanStage::WalkToStop { .. } ==> final(waiting).queues() =~= old(waiting).queues().insert(
                old(route).destination.0, enqueue_once(old(waiting).queue_at(old(route).destination), agent@))
            &&& !(stage matches PlanStage::WalkToStop { .. }) ==> final(waiting).queues() == old(waiting).queues()
        },
        r == RouteAdvance::Invalidated || r == RouteAdvance::Continue ==> {
            &&& *final(state) == *old(state)
            &&& final(plan).cursor == old(plan).cursor
            &&& final(route).cursor == old(route).cursor
            &&& final(waiting).queues() == old(waiting).queues()
        },
{
    let (link, at) = match &*state {
        AgentState::Walking { link_id, at } => (link_id.clone(), *at),
        _ => return RouteAdvance::Invalidated,
    };
    let c = route.cursor;
    if c >= route.steps.len() {
        return RouteAdvance::Invalidated;
    }
    let current_key = route.steps[c].canonical_edge_key.clone();
    let current_edge = route.steps[c].edge_id;
    if !str_equal(link.as_str(), current_key.as_str()) {
        return RouteAdvance::Invalidated;
    }
    proof { crate::graph::lemma_edge_by_canonical_key_sound(*graph, current_key@); }
    match graph.edge_by_canonical_key(current_key.as_str()) {
        Some(e) => {
            if e != current_edge {
                return RouteAdvance::Invalidated;
            }
        },
        None => return RouteAdvance::Invalidated,
    }
    if at != WalkPoint::End {
        return RouteAdvance::Continue;
    }
    let next = c + 1;
    if next < route.steps.len() {
        let next_key = route.steps[next].canonical_edge_key.clone();
        let next_edge = route.steps[next].edge_id;
        proof { crate::graph::lemma_edge_by_canonical_key_sound(*graph, next_key@); }
        match graph.edge_by_canonical_key(next_key.as_str()) {
            Some(e) => {
                if e != next_edge {
                    return RouteAdvance::Invalidated;
                }
            },
            None => return RouteAdvance::Invalidated,
        }
        if graph.edges[current_edge.0 as usize].to != graph.edges[next_edge.0 as usize].from {
            return RouteAdvance::Invalidated;
        }
        route.cursor = next;
        *state = AgentState::Walking { link_id: next_key, at: WalkPoint::Start };
        return RouteAdvance::NextStep;
    }
    if graph.edges[current_edge.0 as usize].to != route.destination {
        return RouteAdvance::Invalidated;
    }
    if plan.cursor >= plan.stages.len() {
        return RouteAdvance::Invalidated;
    }
    let stage = plan.stages[plan.cursor].copy_stage();
    match destination_for_stage(graph, &stage, nearest) {
        Some(d) => {
            if d != route.destination {
                return RouteAdvance::Invalidated;
            }
        },
        None => return RouteAdvance::Invalidated,
    }
    if complete_walk_stage_at_destination(agent, state, plan, &stage, current_key.as_str(), route.destination, waiting) {
        RouteAdvance::Arrived
    } else {
        RouteAdvance::Invalidated
    }
}

/// Counters of route assignment: routes handed out, agents passed over,
/// and assignments or routes that failed.
#[derive(Debug, Clone, Copy, PartialEq, Eq, Structural)]
pub struct RouteAssignmentStats {
    pub assigned: u64,
    pub skipped: u64,
    pub failed: u64,
}

impl Default for RouteAssignmentStats {
    fn default() -> (r: Self)
        ensures
            r == (RouteAssignmentStats { assigned: 0, skipped: 0, failed: 0 }),
    {
        RouteAssignmentStats { assigned: 0, skipped: 0, failed: 0 }
    }
}

/// What the first part of route assignment decided for an agent.
#[derive(Debug, Clone, Copy, PartialEq, Eq, Structural)]
pub enum RouteRequest {
    /// The agent is not walking: nothing to do and nothing to count.
    NotWalking,
    /// The agent was passed over (counted as skipped).
    Skipped,
    /// No route can be had (counted as failed).
    Failed,
    /// A walking route from `origin` to `destination` is wanted.
    Route { origin: NodeId, destination: NodeId },
}

/// The decision of the first part of route assignment for an agent in
/// `state` with plan `stages`/`cursor`/`cyclic`: agents outside simulated
/// chunks, past the end of their plan, at an activity or without routing
/// are skipped; then the stage's destination (with the economic override)
/// and the agent's origin are looked up; an agent already standing on its
/// destination finishes the stage there.
pub open spec fn route_request_outcome(
    g: RoutingGraph,
    state: AgentState,
    stages: Seq<PlanStage>,
    cursor: nat,
    cyclic: bool,
    simulated: bool,
    routing_ready: bool,
    nearest: Option<NodeId>,
    agent: Seq<char>,
    targets: Option<Map<Seq<char>, NodeId>>,
) -> RouteRequest {
    match state {
        AgentState::Walking { link_id, at } => {
            if !simulated || cursor >= stages.len() || stages[cursor as int] is Activity || !routing_ready {
                RouteRequest::Skipped
            } else {
                let stage = stages[cursor as int];
                match destination_for_stage_spec(g, stage, nearest) {
                    None => RouteRequest::Failed,
                    Some(geometric) => {
                        let destination = economic_destination_spec(stage, agent, geometric, targets);
                        match route_origin_spec(g, link_id@, at) {
                            None => RouteRequest::Failed,
                            Some(origin) => if origin == destination {
                                if at_route_endpoint_spec(g, link_id@, at, destination) == Some(true)
                                    && finish_walk_stage(stage, stages.len(), cursor, cyclic, link_id@) is Some {
                                    RouteRequest::Skipped
                                } else {
                                    RouteRequest::Failed
                                }
                            } else {
                                RouteRequest::Route { origin, destination }
                            },
                        }
                    },
                }
            }
        },
        _ => RouteRequest::NotWalking,
    }
}

/// The away-from-home leg of a citizen with a market target is routed to
/// that market: when route assignment requests a route for a walking
/// agent whose stage walks to an economic destination activity (one the
/// graph can route to) and whose id has a target, the requested
/// destination is the target node, from the agent's origin.
pub proof fn lemma_economic_leg_routes_to_market(
    g: RoutingGraph,
    link_id: String,
    at: WalkPoint,
    stages: Seq<PlanStage>,
    cursor: nat,
    cyclic: bool,
    nearest: Option<NodeId>,
    agent: Seq<char>,
    targets: Map<Seq<char>, NodeId>,
)
    requires
        cursor < stages.len(),
        stages[cursor as int] matches PlanStage::WalkToActivity { activity_id, .. } && is_economic_destination_spec(activity_id@),
        targets.contains_key(agent),
        destination_for_stage_spec(g, stages[cursor as int], nearest) is Some,
    ensures
        ({
            let r = route_request_outcome(g, AgentState::Walking { link_id, at }, stages, cursor, cyclic, true, true, nearest, agent, Some(targets));
            &&& r matches RouteRequest::Route { destination, .. } ==> destination == targets[agent]
            &&& (route_origin_spec(g, link_id@, at) matches Some(o) && o != targets[agent])
                ==> r == (RouteRequest::Route { origin: route_origin_spec(g, link_id@, at)->0, destination: targets[agent] })
        }),
{
}

/// Whether a walking agent at an activity stage is at the end of its link,
/// so that it wanders on.
pub open spec fn wanders(state: AgentState, stages: Seq<PlanStage>, cursor: nat, simulated: bool) -> bool {
    &&& state matches AgentState::Walking { at, .. } && at == WalkPoint::End
    &&& simulated
    &&& cursor < stages.len()
    &&& stages[cursor as int] is Activity
}

/// Whether the agent finishes its walk stage on the spot: it already stands
/// on the destination (see `route_request_outcome`).
pub open spec fn completes_in_place(
    g: RoutingGraph,
    state: AgentState,
    stages: Seq<PlanStage>,
    cursor: nat,
    cyclic: bool,
    simulated: bool,
    routing_ready: bool,
    nearest: Option<NodeId>,
    agent: Seq<char>,
    targets: Option<Map<Seq<char>, NodeId>>,
) -> bool {
    &&& route_request_outcome(g, state, stages, cursor, cyclic, simulated, routing_ready, nearest, agent, targets) == RouteRequest::Skipped
    &&& !wanders(state, stages, cursor, simulated)
    &&& state is Walking
    &&& simulated && routing_ready
    &&& cursor < stages.len()
    &&& !(stages[cursor as int] is Activity)
}

/// The destination route assignment settles on for a walk stage (after
/// the economic override).
pub open spec fn assignment_destination(
    g: RoutingGraph,
    stage: PlanStage,
    nearest: Option<NodeId>,
    agent: Seq<char>,
    targets: Option<Map<Seq<char>, NodeId>>,
) -> NodeId {
    economic_destination_spec(stage, agent, destination_for_stage_spec(g, stage, nearest)->0, targets)
}

/// The first part of route assignment for one agent (see
/// `route_request_outcome`): a wandering agent at the end of its link moves
/// on to the next footway (see `next_wander_footway_link`), and an agent
/// already on its destination finishes its walk stage; otherwise nothing
/// changes.
pub fn prepare_route_assignment(
    agent: &AgentId,
    state: &mut AgentState,
    plan: &mut WalkPlan,
    graph: &RoutingGraph,
    simulated: bool,
    routing_ready: bool,
    nearest: Option<NodeId>,
    targets: Option<&CitizenEconomicTargets>,
    waiting: &mut WaitingAgents,
    tick: u64,
) -> (r: RouteRequest)
    requires
        graph.well_formed(),
    ensures
        ({
            let tmap = match targets { Some(t) => Some(t.targets()), None => None };
            let stages = old(plan).stages@;
            let cursor = old(plan).cursor as nat;
            let cyclic = old(plan).cyclic;
            &&& r == route_request_outcome(*graph, *old(state), stages, cursor, cyclic, simulated, routing_ready, nearest, agent@, tmap)
            &&& final(plan).stages == old(plan).stages
            &&& final(plan).cyclic == old(plan).cyclic
            &&& if wanders(*old(state), stages, cursor, simulated) {
                let link = match *old(state) { AgentState::Walking { link_id, .. } => link_id@, _ => Seq::empty() };
                &&& final(plan).cursor == old(plan).cursor
                &&& final(waiting).queues() == old(waiting).queues()
                &&& {
                    ||| *final(state) == *old(state) && wander_result(*graph, link, WalkPoint::End, agent@, tick, None)
                    ||| *final(state) matches AgentState::Walking { link_id: l2, at: a2 } && a2 == WalkPoint::Start
                        && wander_result(*graph, link, WalkPoint::End, agent@, tick, Some(l2@))
                }
            } else if completes_in_place(*graph, *old(state), stages, cursor, cyclic, simulated, routing_ready, nearest, agent@, tmap) {
                let link = match *old(state) { AgentState::Walking { link_id, .. } => link_id@, _ => Seq::empty() };
                let stage = stages[cursor as int];
                let destination = assignment_destination(*graph, stage, nearest, agent@, tmap);
                let (t, c) = finish_walk_stage(stage, stages.len(), cursor, cyclic, link)->0;
                &&& state_matches(*final(state), t)
                &&& final(plan).cursor == c
                &&& stage matches PlanStage::WalkToStop { .. } ==> final(waiting).queues() =~= old(waiting).queues().insert(
                    destination.0, enqueue_once(old(waiting).queue_at(destination), agent@))
                &&& !(stage matches PlanStage::WalkToStop { .. }) ==> final(waiting).queues() == old(waiting).queues()
            } else {
                &&& *final(state) == *old(state)
                &&& final(plan).cursor == old(plan).cursor
                &&& final(waiting).queues() == old(waiting).queues()
            }
        }),
{
    let (link, at) = match &*state {
        AgentState::Walking { link_id, at } => (link_id.clone(), *at),
        _ => return RouteRequest::NotWalking,
    };
    if !simulated || plan.cursor >= plan.stages.len() {
        return RouteRequest::Skipped;
    }
    let stage = plan.stages[plan.cursor].copy_stage();
    if let PlanStage::Activity { .. } = &stage {
        if at == WalkPoint::End {
            match crate::wander::next_wander_footway_link(graph, link.as_str(), at, agent, tick) {
                Some(next) => {
                    *state = AgentState::Walking { link_id: next, at: WalkPoint::Start };
                },
                None => {},
            }
        }
        return RouteRequest::Skipped;
    }
    if !routing_ready {
        return RouteRequest::Skipped;
    }
    let geometric = match destination_for_stage(graph, &stage, nearest) {
        Some(n) => n,
        None => return RouteRequest::Failed,
    };
    let destination = economic_destination(&stage, agent, geometric, targets);
    let origin = match current_route_origin(graph, link.as_str(), at) {
        Some(n) => n,
        None => return RouteRequest::Failed,
    };
    if origin == destination {
        if is_at_route_endpoint(graph, link.as_str(), at, destination) == Some(true)
            && complete_walk_stage_at_destination(agent, state, plan, &stage, link.as_str(), destination, waiting) {
            return RouteRequest::Skipped;
        }
        return RouteRequest::Failed;
    }
    RouteRequest::Route { origin, destination }
}

/// The second part of route assignment, once a flow field towards
/// `destination` is at hand: the agent gets the walking route the field
/// gives from `origin` (a walk of the graph from `origin` to `destination`),
/// and moves onto its first step (from the step's start) unless it already
/// walks that link and has not reached its end. `None` (a failed
/// assignment, the agent unchanged) when the field gives no route or an
/// empty one.
pub fn finish_route_assignment(
    state: &mut AgentState,
    graph: &RoutingGraph,
    field: &FlowField,
    origin: NodeId,
    destination: NodeId,
) -> (r: Option<ActiveRoute>)
    requires
        graph.well_formed(),
        field_consistent(*graph, *field),
        field.destination == destination,
    ensures
        match field_route(*graph, *field, origin, ModeState::Walking, Set::empty(), 0) {
            Some(s) if s.len() > 0 => {
                let route = r->0;
                let first = route.steps@[0].canonical_edge_key@;
                &&& r is Some
                &&& route.destination == destination
                &&& route.profile == RoutingProfileKey::Walk
                &&& route.cursor == 0
                &&& steps_match(*graph, route.steps@, s)
                &&& is_walk(*graph, s, origin, destination)
                &&& if (*old(state) matches AgentState::Walking { link_id, at } && at != WalkPoint::End && link_id@ == first) {
                    *final(state) == *old(state)
                } else {
                    *final(state) matches AgentState::Walking { link_id, at } && link_id@ == first && at == WalkPoint::Start
                }
            },
            _ => r is None && *final(state) == *old(state),
        },
{
    proof {
        assert forall|i: int| 0 <= i < field.entries@.len() implies match (#[trigger] field.entries@[i]).next_edge {
            Some(e) => (e.0 as int) < graph.edges@.len(),
            None => true,
        } by {}
        if field_route(*graph, *field, origin, ModeState::Walking, Set::empty(), 0) is Some {
            lemma_field_route_is_walk(*graph, *field, origin, ModeState::Walking, Set::empty(), 0);
        }
    }
    let steps = match materialize_route_steps(graph, field, origin, ModeState::Walking) {
        Some(steps) => steps,
        None => return None,
    };
    if steps.len() == 0 {
        return None;
    }
    let first = steps[0].canonical_edge_key.clone();
    let keep = match &*state {
        AgentState::Walking { link_id, at } => *at != WalkPoint::End && str_equal(link_id.as_str(), first.as_str()),
        _ => false,
    };
    if !keep {
        *state = AgentState::Walking { link_id: first, at: WalkPoint::Start };
    }
    Some(ActiveRoute { destination, profile: RoutingProfileKey::Walk, steps, cursor: 0 })
}

impl RouteAssignmentStats {
    /// Counts the outcome of the first part of route assignment: a skip or
    /// a failure; nothing for a non-walking agent or a route request.
    pub fn record_request(&mut self, request: RouteRequest)
        requires
            old(self).skipped < u64::MAX,
            old(self).failed < u64::MAX,
        ensures
            final(self).assigned == old(self).assigned,
            final(self).skipped == old(self).skipped + (if request == RouteRequest::Skipped { 1int } else { 0 }),
            final(self).failed == old(self).failed + (if request == RouteRequest::Failed { 1int } else { 0 }),
    {
        match request {
            RouteRequest::Skipped => self.skipped = self.skipped + 1,
            RouteRequest::Failed => self.failed = self.failed + 1,
            _ => {},
        }
    }

    /// Counts the outcome of the second part of route assignment: a route
    /// handed out, or a failure.
    pub fn record_assignment(&mut self, assigned: bool)
        requires
            old(self).assigned < u64::MAX,
            old(self).failed < u64::MAX,
        ensures
            final(self).assigned == old(self).assigned + (if assigned { 1int } else { 0 }),
            final(self).skipped == old(self).skipped,
            final(self).failed == old(self).failed + (if assigned { 0int } else { 1 }),
    {
        if assigned {
            self.assigned = self.assigned + 1;
        } else {
            self.failed = self.failed + 1;
        }
    }

    /// Counts a route dropped by route following as a failure.
    pub fn record_advance(&mut self, outcome: RouteAdvance)
        requires
            old(self).failed < u64::MAX,
        ensures
            final(self).assigned == old(self).assigned,
            final(self).skipped == old(self).skipped,
            final(self).failed == old(self).failed + (if outcome == RouteAdvance::Invalidated { 1int } else { 0 }),
    {
        if outcome == RouteAdvance::Invalidated {
            self.failed = self.failed + 1;
        }
    }
}

/// `activity:work`.
pub open spec fn work_activity() -> Seq<char> {
    seq!['a', 'c', 't', 'i', 'v', 'i', 't', 'y', ':', 'w', 'o', 'r', 'k']
}

/// The chunk whose centre stands for activity `activity_id` when it has no
/// declared position: chunk `(5, 4)` for `activity:work`, chunk `(4, 4)` for
/// any other activity.
pub fn activity_anchor_chunk(activity_id: &str) -> (r: ChunkCoord)
    ensures
        r == (if activity_id@ == work_activity() { ChunkCoord { x: 5, y: 4 } } else { ChunkCoord { x: 4, y: 4 } }),
{
    proof {
        reveal_strlit("activity:work");
        assert("activity:work"@ =~= work_activity());
    }
    if str_equal(activity_id, "activity:work") {
        ChunkCoord { x: 5, y: 4 }
    } else {
        ChunkCoord { x: 4, y: 4 }
    }
}

} // verus!

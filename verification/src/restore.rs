//! Restoring persisted routing state: edge kinds of travel modes, the
//! starting mode of a routing profile, and the check and normalisation of
//! a persisted active route against the rebuilt graph.
use vstd::prelude::*;

use crate::graph::{EdgeKind, RoutingGraph, canonical_key_of, resolve_canonical_edge_key_spec};
use crate::ids::EdgeId;
use crate::routing::{ModeState, RoutingProfileKey};
use crate::text::str_equal;

verus! {

/// One persisted step of an active route: its edge, mode and key (its
/// length is a real number, which this record does not carry).
#[derive(Debug, Clone, PartialEq, Eq)]
pub struct PersistedRouteStep {
    pub edge_id: u32,
    pub mode: ModeState,
    pub canonical_edge_key: String,
}

/// A persisted active route.
#[derive(Debug, Clone, PartialEq, Eq)]
pub struct PersistedActiveRoute {
    pub destination_node: u32,
    pub profile: RoutingProfileKey,
    pub cursor: usize,
    pub steps: Vec<PersistedRouteStep>,
}

/// The kind of edge a travel mode moves on (the tram mode is retired).
pub open spec fn edge_kind_for_mode_spec(mode: ModeState) -> EdgeKind {
    match mode {
        ModeState::Driving => EdgeKind::Road,
        _ => EdgeKind::Footway,
    }
}

/// The kind of edge `mode` moves on: footways for walking, roads for
/// driving.
pub fn edge_kind_for_mode(mode: ModeState) -> (r: EdgeKind)
    requires
        mode != ModeState::OnTram,
    ensures
        r == edge_kind_for_mode_spec(mode),
{
    match mode {
        ModeState::Walking => EdgeKind::Footway,
        _ => EdgeKind::Road,
    }
}

/// The mode a route of `profile` starts in (the tram profile is retired).
pub open spec fn initial_mode_spec(profile: RoutingProfileKey) -> ModeState {
    match profile {
        RoutingProfileKey::Car => ModeState::Driving,
        _ => ModeState::Walking,
    }
}

/// The mode a route of `profile` starts in: walking for the walking
/// profiles, driving for cars.
pub fn initial_mode_for_profile(profile: RoutingProfileKey) -> (r: ModeState)
    requires
        profile != RoutingProfileKey::Tram,
    ensures
        r == initial_mode_spec(profile),
{
    match profile {
        RoutingProfileKey::Car => ModeState::Driving,
        _ => ModeState::Walking,
    }
}

/// The edge persisted step `i` of `route` resolves to.
pub open spec fn step_edge(g: RoutingGraph, route: PersistedActiveRoute, i: int) -> Option<EdgeId> {
    resolve_canonical_edge_key_spec(g, route.steps@[i].canonical_edge_key@)
}

/// The index of the edge persisted step `i` resolves to (`-1` when none).
pub open spec fn step_edge_index(g: RoutingGraph, route: PersistedActiveRoute, i: int) -> int {
    match step_edge(g, route, i) {
        Some(e) => e.0 as int,
        None => -1,
    }
}

/// Whether step `i` resolves to an edge that carries the step's key and
/// starts where the previous step's edge ends.
pub open spec fn step_restorable(g: RoutingGraph, route: PersistedActiveRoute, i: int) -> bool {
    &&& step_edge(g, route, i) is Some
    &&& canonical_key_of(g.edges@[step_edge_index(g, route, i)]) == route.steps@[i].canonical_edge_key@
    &&& i > 0 ==> g.edges@[step_edge_index(g, route, i - 1)].to == g.edges@[step_edge_index(g, route, i)].from
}

/// Whether each step of `route` travels in the mode its profile gives on
/// entering the step's edge. `transitions[i]` is the profile's transition
/// on step `i`'s edge (from the kind of node the edge leaves) out of the
/// mode before the step: the profile's starting mode for the first step,
/// the previous step's mode after; `None` where the profile cannot take
/// the edge in that mode.
pub open spec fn modes_follow(route: PersistedActiveRoute, transitions: Seq<Option<ModeState>>) -> bool {
    &&& transitions.len() == route.steps@.len()
    &&& forall|i: int| 0 <= i < transitions.len() ==> #[trigger] transitions[i] == Some(route.steps@[i].mode)
}

/// Whether a persisted active route can be restored on `g`: it has steps,
/// its cursor is on one of them, its profile is not the retired tram one,
/// its steps resolve, in order, to a connected chain of edges, and each
/// step's mode is what its profile's transition gives (see `modes_follow`).
pub open spec fn route_restorable(g: RoutingGraph, route: PersistedActiveRoute, transitions: Seq<Option<ModeState>>) -> bool {
    &&& route.steps@.len() > 0
    &&& route.cursor < route.steps@.len()
    &&& route.profile != RoutingProfileKey::Tram
    &&& forall|i: int| 0 <= i < route.steps@.len() ==> #[trigger] step_restorable(g, route, i)
    &&& modes_follow(route, transitions)
}

/// Whether `route` can be restored on `graph` given the profile's
/// transitions on its steps (see `route_restorable`); restoring panics on a
/// route that cannot.
pub fn check_active_route(graph: &RoutingGraph, route: &PersistedActiveRoute, transitions: &Vec<Option<ModeState>>) -> (r: bool)
    requires
        graph.well_formed(),
    ensures
        r == route_restorable(*graph, *route, transitions@),
{
    let n = route.steps.len();
    if n == 0 || route.cursor >= n || route.profile == RoutingProfileKey::Tram {
        return false;
    }
    if transitions.len() != n {
        return false;
    }
    let mut m: usize = 0;
    while m < n
        invariant
            n == route.steps@.len(),
            n == transitions@.len(),
            m <= n,
            forall|j: int| 0 <= j < m ==> #[trigger] transitions@[j] == Some(route.steps@[j].mode),
        decreases n - m,
    {
        let follows = match transitions[m] {
            Some(mode) => mode == route.steps[m].mode,
            None => false,
        };
        if !follows {
            assert(!modes_follow(*route, transitions@));
            return false;
        }
        m = m + 1;
    }
    assert(modes_follow(*route, transitions@));
    let mut previous: Option<EdgeId> = None;
    let mut i: usize = 0;
    while i < n
        invariant
            graph.well_formed(),
            n == route.steps@.len(),
            i <= n,
            route.steps@.len() > 0,
            route.cursor < route.steps@.len(),
            route.profile != RoutingProfileKey::Tram,
            modes_follow(*route, transitions@),
            forall|j: int| 0 <= j < i ==> #[trigger] step_restorable(*graph, *route, j),
            previous == (if i == 0 { None } else { step_edge(*graph, *route, i - 1) }),
            i > 0 ==> previous is Some && (match previous { Some(p) => (p.0 as int) < graph.edges@.len(), None => false }),
        decreases n - i,
    {
        let key = &route.steps[i].canonical_edge_key;
        proof { crate::graph::lemma_edge_by_canonical_key_sound(*graph, key@); }
        let e = match graph.resolve_canonical_edge_key(key.as_str()) {
            Some(e) => e,
            None => {
                assert(!step_restorable(*graph, *route, i as int));
                return false;
            },
        };
        let expected = graph.canonical_edge_key(e);
        if !str_equal(expected.as_str(), key.as_str()) {
            assert(!step_restorable(*graph, *route, i as int));
            return false;
        }
        if let Some(p) = previous {
            if graph.edges[p.0 as usize].to != graph.edges[e.0 as usize].from {
                assert(!step_restorable(*graph, *route, i as int));
                return false;
            }
        }
        assert(step_restorable(*graph, *route, i as int));
        previous = Some(e);
        i = i + 1;
    }
    true
}

/// The steps of a restorable route with each edge id replaced by the id
/// its key resolves to.
pub open spec fn normalized_steps_match(g: RoutingGraph, route: PersistedActiveRoute, steps: Seq<PersistedRouteStep>) -> bool {
    &&& steps.len() == route.steps@.len()
    &&& forall|i: int| 0 <= i < steps.len() ==> {
        &&& (#[trigger] steps[i]).edge_id == step_edge_index(g, route, i)
        &&& steps[i].mode == route.steps@[i].mode
        &&& steps[i].canonical_edge_key@ == route.steps@[i].canonical_edge_key@
    }
}

/// Normalises a restorable persisted route against the rebuilt graph
/// (`transitions` as for `route_restorable`): each step takes the id of the
/// edge its key resolves to, and the destination becomes the end node of
/// the last step's edge; profile and cursor stay.
pub fn normalize_active_route(graph: &RoutingGraph, route: &PersistedActiveRoute, transitions: &Vec<Option<ModeState>>) -> (r: PersistedActiveRoute)
    requires
        graph.well_formed(),
        route_restorable(*graph, *route, transitions@),
    ensures
        r.profile == route.profile,
        r.cursor == route.cursor,
        normalized_steps_match(*graph, *route, r.steps@),
        r.destination_node == graph.edges@[step_edge_index(*graph, *route, route.steps@.len() - 1)].to.0,
{
    let n = route.steps.len();
    let mut steps: Vec<PersistedRouteStep> = Vec::new();
    let mut last = EdgeId(0);
    let mut i: usize = 0;
    while i < n
        invariant
            graph.well_formed(),
            route_restorable(*graph, *route, transitions@),
            n == route.steps@.len(),
            i <= n,
            steps@.len() == i,
            forall|j: int| 0 <= j < i ==> {
                &&& (#[trigger] steps@[j]).edge_id == step_edge_index(*graph, *route, j)
                &&& steps@[j].mode == route.steps@[j].mode
                &&& steps@[j].canonical_edge_key@ == route.steps@[j].canonical_edge_key@
            },
            i > 0 ==> last == step_edge(*graph, *route, i - 1)->0,
            i > 0 ==> (last.0 as int) < graph.edges@.len(),
        decreases n - i,
    {
        let step = &route.steps[i];
        assert(step_restorable(*graph, *route, i as int));
        proof { crate::graph::lemma_edge_by_canonical_key_sound(*graph, step.canonical_edge_key@); }
        let e = match graph.resolve_canonical_edge_key(step.canonical_edge_key.as_str()) {
            Some(e) => e,
            None => {
                assert(false);
                EdgeId(0)
            },
        };
        steps.push(PersistedRouteStep { edge_id: e.0, mode: step.mode, canonical_edge_key: step.canonical_edge_key.clone() });
        last = e;
        i = i + 1;
    }
    assert(step_restorable(*graph, *route, n as int - 1));
    PersistedActiveRoute {
        destination_node: graph.edges[last.0 as usize].to.0,
        profile: route.profile,
        cursor: route.cursor,
        steps,
    }
}

} // verus!

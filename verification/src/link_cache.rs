//! Keeping each entity's cached link polyline in step with the link it is
//! on: when to load the polyline of a new link, keep the cached one, or drop
//! it. The polylines themselves stay with the caller.

use vstd::prelude::*;

use crate::graph::{RoutingGraph, canonical_key_of, edge_by_canonical_key_spec};
use crate::ids::EdgeId;
use crate::snapshot_graph::TrafficRoute;
use crate::text::str_equal;

verus! {

/// What to do with an entity's cached link polyline.
#[derive(Debug, Clone, Copy, PartialEq, Eq, Structural)]
pub enum CacheAction {
    /// Leave the cache as it is (or absent).
    Keep,
    /// Cache the polyline of edge `edge` under the link the entity is on.
    Load { edge: EdgeId },
    /// Remove the cache.
    Drop,
}

/// The action for an agent on link `want` (none unless walking) whose cache
/// holds link `cached`: drop the cache of an agent that is not walking;
/// otherwise load the link's edge when the cache holds another link (or
/// none) and the link names an edge; keep the cache in every other case.
pub open spec fn agent_cache_action_spec(g: RoutingGraph, want: Option<Seq<char>>, cached: Option<Seq<char>>) -> CacheAction {
    match want {
        None => if cached is Some { CacheAction::Drop } else { CacheAction::Keep },
        Some(w) => if cached == Some(w) {
            CacheAction::Keep
        } else {
            match edge_by_canonical_key_spec(g, w) {
                Some(e) => CacheAction::Load { edge: e },
                None => CacheAction::Keep,
            }
        },
    }
}

/// Decides what to do with a walking (or not walking) agent's cached link
/// polyline (see `agent_cache_action_spec`).
pub fn agent_cache_action(graph: &RoutingGraph, want: Option<&str>, cached: Option<&str>) -> (r: CacheAction)
    requires
        graph.well_formed(),
    ensures
        r == agent_cache_action_spec(*graph, match want { Some(w) => Some(w@), None => None }, match cached { Some(c) => Some(c@), None => None }),
{
    match want {
        None => match cached {
            Some(_) => CacheAction::Drop,
            None => CacheAction::Keep,
        },
        Some(w) => {
            let same = match cached {
                Some(c) => str_equal(c, w),
                None => false,
            };
            if same {
                CacheAction::Keep
            } else {
                proof { crate::graph::lemma_edge_by_canonical_key_sound(*graph, w@); }
                match graph.edge_by_canonical_key(w) {
                    Some(e) => CacheAction::Load { edge: e },
                    None => CacheAction::Keep,
                }
            }
        },
    }
}

/// The edge a vehicle on traffic route `route_id` (of `routes`) is on at
/// `edge_index`, when both exist.
pub open spec fn traffic_route_edge_spec(routes: Seq<TrafficRoute>, route_id: u32, edge_index: usize) -> Option<EdgeId> {
    if (route_id as int) < routes.len() && edge_index < routes[route_id as int].edges@.len() {
        Some(routes[route_id as int].edges@[edge_index as int])
    } else {
        None
    }
}

/// The edge a vehicle is on (see `traffic_route_edge_spec`).
pub fn traffic_route_edge(routes: &Vec<TrafficRoute>, route_id: u32, edge_index: usize) -> (r: Option<EdgeId>)
    ensures
        r == traffic_route_edge_spec(routes@, route_id, edge_index),
{
    if (route_id as usize) < routes.len() && edge_index < routes[route_id as usize].edges.len() {
        Some(routes[route_id as usize].edges[edge_index])
    } else {
        None
    }
}

/// The action for a vehicle on edge `on` (none when its route position
/// names no edge) whose cache holds link `cached`: drop the cache of a
/// vehicle on no edge; load the edge when the cache is absent or holds
/// another key than the edge's canonical key; keep it otherwise.
pub open spec fn vehicle_cache_action_spec(g: RoutingGraph, on: Option<EdgeId>, cached: Option<Seq<char>>) -> CacheAction {
    match on {
        None => if cached is Some { CacheAction::Drop } else { CacheAction::Keep },
        Some(e) => if cached == Some(canonical_key_of(g.edges@[e.0 as int])) {
            CacheAction::Keep
        } else {
            CacheAction::Load { edge: e }
        },
    }
}

/// Decides what to do with a vehicle's cached link polyline (see
/// `vehicle_cache_action_spec`).
pub fn vehicle_cache_action(graph: &RoutingGraph, on: Option<EdgeId>, cached: Option<&str>) -> (r: CacheAction)
    requires
        on matches Some(e) ==> (e.0 as int) < graph.edges@.len(),
    ensures
        r == vehicle_cache_action_spec(*graph, on, match cached { Some(c) => Some(c@), None => None }),
{
    match on {
        None => match cached {
            Some(_) => CacheAction::Drop,
            None => CacheAction::Keep,
        },
        Some(e) => {
            let same = match cached {
                Some(c) => graph.canonical_key_matches(e, c),
                None => false,
            };
            if same { CacheAction::Keep } else { CacheAction::Load { edge: e } }
        },
    }
}

/// A cached polyline is used for a vehicle only while it was cached under
/// the canonical key of the edge the vehicle is on.
pub fn cached_polyline_current(graph: &RoutingGraph, on: Option<EdgeId>, cached: Option<&str>) -> (r: bool)
    requires
        on matches Some(e) ==> (e.0 as int) < graph.edges@.len(),
    ensures
        r == (on matches Some(e) && cached matches Some(c) && c@ == canonical_key_of(graph.edges@[e.0 as int])),
{
    match (on, cached) {
        (Some(e), Some(c)) => graph.canonical_key_matches(e, c),
        _ => false,
    }
}

/// Once a vehicle's cache was brought up to date, it is current, and a
/// further update keeps it.
pub proof fn lemma_vehicle_cache_settles(g: RoutingGraph, e: EdgeId, cached: Option<Seq<char>>)
    ensures
        ({
            let key = canonical_key_of(g.edges@[e.0 as int]);
            let after = match vehicle_cache_action_spec(g, Some(e), cached) {
                CacheAction::Load { edge } => Some(canonical_key_of(g.edges@[edge.0 as int])),
                CacheAction::Keep => cached,
                CacheAction::Drop => None,
            };
            &&& after == Some(key)
            &&& vehicle_cache_action_spec(g, Some(e), after) == CacheAction::Keep
        }),
{
}

} // verus!

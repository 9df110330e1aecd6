//! The per-tick decision for a vehicle on a traffic route: skip it, count
//! down its dwell, move it to the next edge of its (looping) route, or let it
//! drive on along the current edge, the vehicle a waiting agent boards,
//! and the stop at the end of a line's edge where its occupants may alight. Progress along an edge stays with
//! the caller.

use vstd::prelude::*;

use crate::graph::{NodeKind, RoutingGraph};
use crate::ids::{EdgeId, LineId, NodeId};

verus! {

/// What a vehicle does this tick.
#[derive(Debug, Clone, Copy, PartialEq, Eq, Structural)]
pub enum VehicleStep {
    /// Its route or edge index names nothing: leave it alone.
    Skip,
    /// It is dwelling: the dwell count becomes `remaining`.
    Dwell { remaining: u16 },
    /// It reached the end of its edge: it starts edge `edge_index` at zero progress.
    NextEdge { edge_index: usize },
    /// It drives on along its edge.
    Drive,
}

/// The step of a vehicle on route `route_id` (of `route_count` routes, its
/// route having `route_len` edges) at edge `edge_index`, with `dwell` ticks
/// of dwelling left, having reached the end of its edge or not.
pub open spec fn vehicle_step_spec(route_count: usize, route_id: u32, route_len: usize, edge_index: usize, dwell: u16, at_edge_end: bool) -> VehicleStep {
    if route_id as int >= route_count || route_len == 0 || edge_index >= route_len {
        VehicleStep::Skip
    } else if dwell > 0 {
        VehicleStep::Dwell { remaining: (dwell - 1) as u16 }
    } else if at_edge_end {
        VehicleStep::NextEdge { edge_index: ((edge_index + 1) % (route_len as int)) as usize }
    } else {
        VehicleStep::Drive
    }
}

/// Decides the step of a vehicle (see `vehicle_step_spec`): routes loop, so
/// the edge after the last is the first.
pub fn vehicle_step(route_count: usize, route_id: u32, route_len: usize, edge_index: usize, dwell: u16, at_edge_end: bool) -> (r: VehicleStep)
    ensures
        r == vehicle_step_spec(route_count, route_id, route_len, edge_index, dwell, at_edge_end),
{
    if route_id as usize >= route_count || route_len == 0 || edge_index >= route_len {
        VehicleStep::Skip
    } else if dwell > 0 {
        VehicleStep::Dwell { remaining: dwell - 1 }
    } else if at_edge_end {
        VehicleStep::NextEdge { edge_index: (edge_index + 1) % route_len }
    } else {
        VehicleStep::Drive
    }
}

/// The stop a vehicle at the end of edge `edge_index` of a line with edges
/// `edges` stands at: the end node of that edge, when it is a transit stop.
pub open spec fn end_of_link_stop_spec(g: RoutingGraph, edges: Seq<EdgeId>, edge_index: int) -> Option<NodeId> {
    if 0 <= edge_index < edges.len() && g.nodes@[g.edges@[edges[edge_index].0 as int].to.0 as int].kind == NodeKind::TransitStop {
        Some(g.edges@[edges[edge_index].0 as int].to)
    } else {
        None
    }
}

/// The stop where the occupants of a vehicle at the end of edge
/// `edge_index` of its line (with edges `edges`) may alight (see
/// `end_of_link_stop_spec`).
pub fn end_of_link_stop(graph: &RoutingGraph, edges: &Vec<EdgeId>, edge_index: usize) -> (r: Option<NodeId>)
    requires
        graph.well_formed(),
        forall|i: int| 0 <= i < edges@.len() ==> ((#[trigger] edges@[i]).0 as int) < graph.edges@.len(),
    ensures
        r == end_of_link_stop_spec(*graph, edges@, edge_index as int),
{
    if edge_index >= edges.len() {
        return None;
    }
    let e = edges[edge_index];
    let to = graph.edges[e.0 as usize].to;
    if graph.nodes[to.0 as usize].kind == NodeKind::TransitStop {
        Some(to)
    } else {
        None
    }
}

/// A vehicle as boarding sees it: its line and edge index, whether it is
/// in a simulated chunk, whether it stands at the stop's place along the
/// edge (decided by the caller on real-valued progress), its occupants and
/// its seats.
#[derive(Debug, Clone, Copy)]
pub struct FleetVehicle {
    pub line: LineId,
    pub edge_index: usize,
    pub simulated: bool,
    pub at_stop: bool,
    pub occupants: usize,
    pub capacity: u16,
}

/// Whether the agent at the front of a stop's queue, served by line `line`
/// at edge `edge_index`, can board `v`: a simulated vehicle of that line on
/// that edge, at the stop, with a free seat.
pub open spec fn can_board(v: FleetVehicle, line: LineId, edge_index: usize) -> bool {
    &&& v.simulated
    &&& v.line == line
    &&& v.edge_index == edge_index
    &&& v.at_stop
    &&& v.occupants < v.capacity
}

/// The vehicle the front agent of a stop boards, and the seat it takes:
/// the first of `fleet` it can board (see `can_board`), at the seat after
/// its occupants; `None` when it can board none.
pub fn boarding_vehicle(line: LineId, edge_index: usize, fleet: &Vec<FleetVehicle>) -> (r: Option<(usize, u16)>)
    ensures
        match r {
            Some((i, seat)) => {
                &&& i < fleet@.len()
                &&& can_board(fleet@[i as int], line, edge_index)
                &&& forall|j: int| 0 <= j < i ==> !can_board(#[trigger] fleet@[j], line, edge_index)
                &&& seat == fleet@[i as int].occupants
            },
            None => forall|j: int| 0 <= j < fleet@.len() ==> !can_board(#[trigger] fleet@[j], line, edge_index),
        },
{
    let n = fleet.len();
    let mut i: usize = 0;
    while i < n
        invariant
            n == fleet@.len(),
            i <= n,
            forall|j: int| 0 <= j < i ==> !can_board(#[trigger] fleet@[j], line, edge_index),
        decreases n - i,
    {
        let v = fleet[i];
        if v.simulated && v.line == line && v.edge_index == edge_index && v.at_stop && v.occupants < v.capacity as usize {
            return Some((i, v.occupants as u16));
        }
        i = i + 1;
    }
    None
}

/// A vehicle stays on its route: a step never moves it to an edge its route
/// does not have, and a vehicle on a valid edge is never skipped.
pub proof fn lemma_vehicle_stays_on_route(route_count: usize, route_id: u32, route_len: usize, edge_index: usize, dwell: u16, at_edge_end: bool)
    ensures
        vehicle_step_spec(route_count, route_id, route_len, edge_index, dwell, at_edge_end) matches VehicleStep::NextEdge { edge_index: e }
            ==> e < route_len,
        (route_id < route_count && edge_index < route_len) ==>
            vehicle_step_spec(route_count, route_id, route_len, edge_index, dwell, at_edge_end) != VehicleStep::Skip,
{
}

} // verus!

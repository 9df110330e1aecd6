use sim_core::records::{RoadVehicleDelta, RoadVehicleId};
use sim_core::road_vehicles::road_vehicle_delta;
use sim_core::graph::{EdgeKind, GraphEdge, GraphNode, NodeKind, RoutingGraph};
use sim_core::ids::{EdgeId, LineId, NodeId};
use sim_core::vehicles::{boarding_vehicle, end_of_link_stop, vehicle_step, FleetVehicle, VehicleStep};

#[test]
fn tests_vehicle_advance_decrements_dwell_when_positive() {
    assert_eq!(vehicle_step(1, 0, 2, 0, 3, false), VehicleStep::Dwell { remaining: 2 });
    // Dwelling wins over reaching the edge's end.
    assert_eq!(vehicle_step(1, 0, 2, 0, 1, true), VehicleStep::Dwell { remaining: 0 });
}

#[test]
fn tests_vehicle_advance_progresses_when_not_dwelling() {
    assert_eq!(vehicle_step(1, 0, 2, 0, 0, false), VehicleStep::Drive);
}

#[test]
fn vehicle_advance_loops_car_over_traffic_route_edges() {
    assert_eq!(vehicle_step(1, 0, 2, 0, 0, true), VehicleStep::NextEdge { edge_index: 1 });
    assert_eq!(vehicle_step(1, 0, 2, 1, 0, true), VehicleStep::NextEdge { edge_index: 0 });
}

#[test]
fn vehicle_advance_requires_traffic_routes() {
    assert_eq!(vehicle_step(0, 0, 0, 0, 0, false), VehicleStep::Skip);
    assert_eq!(vehicle_step(1, 1, 2, 0, 0, false), VehicleStep::Skip);
}

#[test]
fn vehicle_advance_skips_invalid_route_edge_index_before_state_mutation() {
    // Not even the dwell is counted down.
    assert_eq!(vehicle_step(1, 0, 2, 99, 2, false), VehicleStep::Skip);
    assert_eq!(vehicle_step(1, 0, 0, 0, 2, true), VehicleStep::Skip);
}

#[test]
fn road_vehicle_tick_reports_movers_sorted_by_id() {
    let vehicles = vec![
        (RoadVehicleId("road_vehicle:seed:2".into()), 2),
        (RoadVehicleId("road_vehicle:seed:10".into()), 5),
        (RoadVehicleId("road_vehicle:seed:1".into()), 1),
        (RoadVehicleId("road_vehicle:seed:0".into()), 2),
    ];
    let delta = road_vehicle_delta(&vehicles);
    let ids: Vec<&str> = delta.changed.iter().map(|v| v.0.as_str()).collect();
    assert_eq!(ids, vec!["road_vehicle:seed:0", "road_vehicle:seed:10", "road_vehicle:seed:2"]);
    assert_eq!(road_vehicle_delta(&vec![]), RoadVehicleDelta::default());
}

#[test]
fn a_line_edge_ending_at_a_transit_stop_names_that_stop() {
    let kinds = [NodeKind::Intersection, NodeKind::TransitStop, NodeKind::Intersection];
    let graph = RoutingGraph {
        nodes: kinds
            .iter()
            .enumerate()
            .map(|(i, k)| GraphNode { id: NodeId(i as u32), kind: *k, legacy_ids: vec![] })
            .collect(),
        edges: vec![
            GraphEdge { id: EdgeId(0), from: NodeId(0), to: NodeId(1), kind: EdgeKind::Road, legacy_id: None },
            GraphEdge { id: EdgeId(1), from: NodeId(1), to: NodeId(2), kind: EdgeKind::Road, legacy_id: None },
        ],
    };
    let line = vec![EdgeId(0), EdgeId(1)];
    assert_eq!(end_of_link_stop(&graph, &line, 0), Some(NodeId(1)));
    assert_eq!(end_of_link_stop(&graph, &line, 1), None);
    assert_eq!(end_of_link_stop(&graph, &line, 2), None);
}

#[test]
fn a_waiting_agent_boards_the_first_vehicle_at_its_stop_with_a_free_seat() {
    let v = |line: u32, edge_index: usize, at_stop: bool, occupants: usize, capacity: u16| FleetVehicle {
        line: LineId(line),
        edge_index,
        simulated: true,
        at_stop,
        occupants,
        capacity,
    };
    let mut fleet = vec![
        v(1, 2, true, 0, 4),  // other line
        v(0, 3, true, 0, 4),  // other edge
        v(0, 2, false, 0, 4), // not at the stop yet
        v(0, 2, true, 4, 4),  // full
        v(0, 2, true, 2, 4),
        v(0, 2, true, 0, 4),
    ];
    assert_eq!(boarding_vehicle(LineId(0), 2, &fleet), Some((4, 2)));
    fleet[4].simulated = false;
    assert_eq!(boarding_vehicle(LineId(0), 2, &fleet), Some((5, 0)));
    assert_eq!(boarding_vehicle(LineId(7), 2, &fleet), None);
}

use sim_core::bookkeeping::ChunkPopulationTracker;
use sim_core::chunks::ChunkTable;
use sim_core::graph::{EdgeKind, GraphEdge, GraphNode, NodeKind, RoutingGraph};
use sim_core::ids::{born_agent_id, AgentId, ChunkCoord, EdgeId, LineId, NodeId, VehicleId};
use sim_core::lod::{classify_chunk_mobility_activity, MobilityActivity};
use sim_core::plan::{
    advance_cursor, alight_at_stop, board_front_at_stop, stop_arrival, AgentState, WaitingAgents,
    WalkPlan, WalkPoint,
};
use sim_core::records::PlanStage;
use sim_core::transit::LegacyTransitShim;

fn c(x: i32, y: i32) -> ChunkCoord {
    ChunkCoord { x, y }
}

/// Two stops `s:1` and `s:2` joined by link `l:1`.
fn stop_graph() -> RoutingGraph {
    RoutingGraph {
        nodes: vec![
            GraphNode { id: NodeId(0), kind: NodeKind::TransitStop, legacy_ids: vec!["s:1".into()] },
            GraphNode { id: NodeId(1), kind: NodeKind::TransitStop, legacy_ids: vec!["s:2".into()] },
        ],
        edges: vec![GraphEdge {
            id: EdgeId(0),
            from: NodeId(0),
            to: NodeId(1),
            kind: EdgeKind::Footway,
            legacy_id: Some("l:1".into()),
        }],
    }
}

#[test]
fn cyclic_plan_cursor_wraps_to_zero_at_end() {
    let stages = vec![
        PlanStage::Activity { activity_id: "a".into() },
        PlanStage::Activity { activity_id: "b".into() },
    ];
    let mut p = WalkPlan { stages: stages.clone(), cursor: 1, cyclic: true };
    advance_cursor(&mut p);
    assert_eq!(p.cursor, 0);
    let mut q = WalkPlan { stages, cursor: 1, cyclic: false };
    advance_cursor(&mut q);
    assert_eq!(q.cursor, 2);
}

#[test]
fn systems_stop_arrival_transitions_walking_agent_to_waiting_at_stop() {
    let graph = stop_graph();
    let agent = AgentId("a:1".into());
    let mut state = AgentState::Walking { link_id: "l:1".into(), at: WalkPoint::End };
    let mut plan = WalkPlan {
        stages: vec![PlanStage::WalkToStop { link_id: "l:1".into(), stop_id: "s:1".into() }],
        cursor: 0,
        cyclic: false,
    };
    let mut waiting = WaitingAgents::new();
    assert!(stop_arrival(&agent, &mut state, &mut plan, false, &graph, &mut waiting));
    assert_eq!(state, AgentState::WaitingAtStop { stop_id: "s:1".into() });
    assert_eq!(plan.cursor, 1);
    assert_eq!(waiting.front(NodeId(0)), Some(agent));
}

#[test]
fn stop_arrival_leaves_routed_and_unfinished_walkers_alone() {
    let graph = stop_graph();
    let agent = AgentId("a:1".into());
    let plan0 = WalkPlan {
        stages: vec![PlanStage::WalkToStop { link_id: "l:1".into(), stop_id: "s:1".into() }],
        cursor: 0,
        cyclic: false,
    };
    let mut waiting = WaitingAgents::new();
    let mut state = AgentState::Walking { link_id: "l:1".into(), at: WalkPoint::End };
    let mut plan = plan0.clone();
    assert!(!stop_arrival(&agent, &mut state, &mut plan, true, &graph, &mut waiting));
    let mut mid = AgentState::Walking { link_id: "l:1".into(), at: WalkPoint::Along };
    let mut plan = plan0.clone();
    assert!(!stop_arrival(&agent, &mut mid, &mut plan, false, &graph, &mut waiting));
    assert_eq!(plan.cursor, 0);
    assert_eq!(waiting.front(NodeId(0)), None);
}

#[test]
fn boarding_system_moves_waiting_agent_into_matching_vehicle() {
    let mut waiting = WaitingAgents::new();
    waiting.enqueue(NodeId(0), &AgentId("a:1".into()));
    waiting.enqueue(NodeId(0), &AgentId("a:2".into()));
    let mut occupants = Vec::new();
    let vehicle = VehicleId("v:1".into());
    let first = board_front_at_stop(&mut waiting, NodeId(0), &mut occupants, 1, &vehicle);
    assert_eq!(
        first,
        Some((AgentId("a:1".into()), AgentState::InVehicle { vehicle_id: vehicle.clone(), seat_index: 0 }))
    );
    assert_eq!(occupants, vec![AgentId("a:1".into())]);
    // Full: the second agent keeps waiting.
    assert_eq!(board_front_at_stop(&mut waiting, NodeId(0), &mut occupants, 1, &vehicle), None);
    assert_eq!(waiting.front(NodeId(0)), Some(AgentId("a:2".into())));
    // Nobody waits at the other stop.
    assert_eq!(board_front_at_stop(&mut waiting, NodeId(1), &mut occupants, 4, &vehicle), None);
}

#[test]
fn alighting_system_drops_occupant_at_end_of_link_destination_stop() {
    let graph = stop_graph();
    let agent = AgentId("a:1".into());
    let vehicle = VehicleId("v:1".into());
    let mut state = AgentState::InVehicle { vehicle_id: vehicle.clone(), seat_index: 0 };
    let mut plan = WalkPlan {
        stages: vec![
            PlanStage::RideToStop { route_id: "r:1".into(), stop_id: "s:2".into() },
            PlanStage::WalkToActivity { link_id: "l:1".into(), activity_id: "activity:work".into() },
        ],
        cursor: 0,
        cyclic: false,
    };
    let mut occupants = vec![AgentId("a:0".into()), agent.clone()];
    // Not its stop yet.
    assert!(!alight_at_stop(&agent, &mut state, &mut plan, &mut occupants, &vehicle, NodeId(0), &graph));
    assert_eq!(occupants.len(), 2);
    assert!(alight_at_stop(&agent, &mut state, &mut plan, &mut occupants, &vehicle, NodeId(1), &graph));
    assert_eq!(occupants, vec![AgentId("a:0".into())]);
    assert_eq!(plan.cursor, 1);
    assert_eq!(state, AgentState::Walking { link_id: "l:1".into(), at: WalkPoint::Start });
}

#[test]
fn chunk_subscriptions_count_and_saturate() {
    let mut table = ChunkTable::new();
    table.apply_subscription_diff(&[c(0, 0), c(0, 0), c(1, 0)], &[]);
    assert_eq!(table.chunk_subscriber_count(c(0, 0)), 2);
    assert_eq!(table.chunk_subscriber_count(c(1, 0)), 1);
    assert_eq!(table.activity_for_chunk(c(1, 0)), Some(MobilityActivity::Asleep));
    table.apply_subscription_diff(&[], &[c(1, 0), c(1, 0), c(5, 5)]);
    assert_eq!(table.chunk_subscriber_count(c(1, 0)), 0);
    assert_eq!(table.chunk_subscriber_count(c(5, 5)), 0);
    assert_eq!(table.activity_for_chunk(c(5, 5)), None);
    table.seed_chunk_subscriber_count(c(2, 2), 255);
    table.apply_subscription_diff(&[c(2, 2)], &[]);
    assert_eq!(table.chunk_subscriber_count(c(2, 2)), 255);
}

#[test]
fn chunk_views_follow_the_lod_markers() {
    let mut table = ChunkTable::new();
    table.seed_chunk_activity(c(0, 0), MobilityActivity::Active);
    table.seed_chunk_activity(c(1, 0), MobilityActivity::Warm);
    table.seed_chunk_activity(c(2, 0), MobilityActivity::Hot);
    assert!(table.chunk_is_simulated(c(0, 0)));
    assert!(table.chunk_is_simulated(c(2, 0)));
    assert!(!table.chunk_is_simulated(c(1, 0)));
    assert!(table.chunk_is_warm(c(1, 0)));
    table.seed_chunk_activity(c(0, 0), MobilityActivity::Asleep);
    table.refresh_simulated_chunks();
    assert!(!table.chunk_is_simulated(c(0, 0)));
    assert!(table.chunk_is_simulated(c(2, 0)));
    assert!(table.chunk_is_warm(c(1, 0)));
}

#[test]
fn tests_track_chunk_populations_sums_agents_vehicles_and_flow_cells() {
    let mut tracker = ChunkPopulationTracker::new();
    // Two agents in chunk (1, 0), one vehicle in (2, 0), and a warm flow of
    // three (floor of 3.7) in (0, 0).
    let agents = vec![(1, c(1, 0)), (2, c(1, 0))];
    let vehicles = vec![(3, c(2, 0))];
    tracker.track(&agents, &vehicles, &agents, &vehicles, &vec![(c(0, 0), 3)]);
    assert_eq!(tracker.population(c(1, 0)), 2);
    assert_eq!(tracker.population(c(2, 0)), 1);
    assert_eq!(tracker.population(c(0, 0)), 3);
    assert_eq!(tracker.tracked_count(), 3);
}

#[test]
fn tests_incremental_chunk_populations_matches_full_rebuild() {
    let all: Vec<(u64, ChunkCoord)> = (0..200u64).map(|i| (i, c((i % 10) as i32, (i / 10) as i32))).collect();
    let mut tracker = ChunkPopulationTracker::new();
    tracker.track(&all, &vec![], &all, &vec![], &vec![]);
    // Agent 0 moves far away.
    let moved = vec![(0u64, c(31, 31))];
    let mut after: Vec<(u64, ChunkCoord)> = all.clone();
    after[0] = (0, c(31, 31));
    tracker.track(&moved, &vec![], &after, &vec![], &vec![]);
    let mut rebuilt = ChunkPopulationTracker::new();
    rebuilt.track(&after, &vec![], &after, &vec![], &vec![]);
    for x in 0..32 {
        for y in 0..32 {
            let mut a = tracker.entities_in_chunk(c(x, y), false);
            let mut b = rebuilt.entities_in_chunk(c(x, y), false);
            a.sort();
            b.sort();
            assert_eq!(a, b);
        }
    }
    assert_eq!(tracker.entities_in_chunk(c(31, 31), false), vec![0]);
    assert_eq!(tracker.population(c(0, 0)), 0);
}

#[test]
fn despawned_entities_are_forgotten() {
    let mut tracker = ChunkPopulationTracker::new();
    let agents = vec![(1, c(0, 0)), (2, c(0, 0))];
    tracker.track(&agents, &vec![], &agents, &vec![], &vec![]);
    let still = vec![(2, c(0, 0))];
    tracker.track(&vec![], &vec![], &still, &vec![], &vec![]);
    assert_eq!(tracker.population(c(0, 0)), 1);
    assert_eq!(tracker.entities_in_chunk(c(0, 0), false), vec![2]);
}

#[test]
fn transit_shim_keeps_one_line_per_route() {
    let mut shim = LegacyTransitShim::new();
    let a = shim.register_route("route:a", &["l:1".to_string(), "l:2".to_string()]);
    let b = shim.register_route("route:b", &["l:3".to_string()]);
    assert_eq!(a, LineId(0));
    assert_eq!(b, LineId(1));
    assert_eq!(shim.line_id_for_route("route:b"), Some(LineId(1)));
    assert_eq!(shim.route_id_for_line(LineId(0)).map(String::as_str), Some("route:a"));
    assert_eq!(shim.link_for(LineId(0), 1).map(String::as_str), Some("l:2"));
    assert_eq!(shim.link_for(LineId(0), 2), None);
    // Registering again keeps the line and replaces the links.
    let again = shim.register_route("route:a", &["l:9".to_string()]);
    assert_eq!(again, LineId(0));
    assert_eq!(shim.links_for(LineId(0)).unwrap(), &["l:9".to_string()][..]);
    assert_eq!(shim.line_id_for_route("route:z"), None);
    assert_eq!(shim.route_id_for_line(LineId(7)), None);
}

#[test]
fn subscribing_then_unsubscribing_restores_the_count() {
    let mut table = ChunkTable::new();
    table.seed_chunk_subscriber_count(c(3, 3), 4);
    table.apply_subscription_diff(&[c(3, 3)], &[]);
    table.apply_subscription_diff(&[], &[c(3, 3)]);
    assert_eq!(table.chunk_subscriber_count(c(3, 3)), 4);
}

#[test]
fn a_quiet_pass_keeps_every_location() {
    let mut tracker = ChunkPopulationTracker::new();
    let agents = vec![(1, c(0, 0)), (2, c(4, 1))];
    let vehicles = vec![(9, c(4, 1))];
    tracker.track(&agents, &vehicles, &agents, &vehicles, &vec![]);
    tracker.track(&vec![], &vec![], &agents, &vehicles, &vec![(c(7, 7), 0)]);
    assert_eq!(tracker.entities_in_chunk(c(4, 1), false), vec![2]);
    assert_eq!(tracker.entities_in_chunk(c(4, 1), true), vec![9]);
    assert_eq!(tracker.population(c(4, 1)), 2);
    // Non-positive flows are not counted.
    assert_eq!(tracker.population(c(7, 7)), 0);
}

#[test]
fn tests_subscribe_drives_chunk_active_via_entity_classifier() {
    let chunk = c(4, 4);
    let mut table = ChunkTable::new();
    table.apply_subscription_diff(&[chunk], &[]);
    // One reclassification pass, as the schedule runs it.
    let previous = table.activity_for_chunk(chunk).unwrap();
    let next = classify_chunk_mobility_activity(table.chunk_subscriber_count(chunk), 0, previous, 0);
    table.seed_chunk_activity(chunk, next);
    assert_eq!(table.activity_for_chunk(chunk), Some(MobilityActivity::Active), "single subscriber → Active on first tick");
    assert!(table.chunk_is_simulated(chunk));
}

#[test]
fn a_born_agent_is_named_after_its_mother_and_month() {
    let child = born_agent_id(&AgentId("agent:7".into()), 12);
    assert_eq!(child, AgentId("agent:born:agent:7:12".into()));
}

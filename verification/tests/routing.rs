use sim_core::graph::{EdgeKind, GraphEdge, GraphNode, NodeKind, RoutingGraph};
use sim_core::ids::{AgentId, ChunkCoord, EdgeId, NodeId};
use sim_core::plan::{AgentState, WaitingAgents, WalkPlan, WalkPoint};
use sim_core::records::PlanStage;
use sim_core::routing::{
    activity_anchor_chunk, RouteStep,
    destination_for_stage, economic_destination, finish_route_assignment,
    is_economic_destination_activity, materialize_route_steps, prepare_route_assignment,
    route_advance, ActiveRoute, CitizenEconomicTargets, FlowEntry, FlowField, ModeState,
    RouteAdvance, RouteAssignmentStats, RouteRequest, RoutingProfileKey,
};

fn node(id: u32, kind: NodeKind, legacy: Option<&str>) -> GraphNode {
    GraphNode {
        id: NodeId(id),
        kind,
        legacy_ids: legacy.map(|l| vec![l.to_string()]).unwrap_or_default(),
    }
}

fn footway(id: u32, from: u32, to: u32, legacy: Option<&str>) -> GraphEdge {
    GraphEdge {
        id: EdgeId(id),
        from: NodeId(from),
        to: NodeId(to),
        kind: EdgeKind::Footway,
        legacy_id: legacy.map(str::to_string),
    }
}

fn minimal_graph_with_node_at_5_5() -> RoutingGraph {
    RoutingGraph {
        nodes: vec![
            node(0, NodeKind::Intersection, None),
            node(1, NodeKind::ActivityLocation, None),
        ],
        edges: vec![footway(0, 0, 1, Some("walk:test"))],
    }
}

/// Three nodes in a row joined by `walk:a` and `walk:b`; the last one is the
/// activity location.
fn route_graph(activity_legacy_id: Option<&str>, edge_legacy: bool) -> RoutingGraph {
    RoutingGraph {
        nodes: vec![
            node(0, NodeKind::Intersection, None),
            node(1, NodeKind::Intersection, None),
            node(2, NodeKind::ActivityLocation, activity_legacy_id),
        ],
        edges: vec![
            footway(0, 0, 1, if edge_legacy { Some("walk:a") } else { None }),
            footway(1, 1, 2, if edge_legacy { Some("walk:b") } else { None }),
        ],
    }
}

fn intermediate_cluster_route_graph() -> RoutingGraph {
    RoutingGraph {
        nodes: vec![
            node(0, NodeKind::Intersection, None),
            node(1, NodeKind::Intersection, None),
            node(2, NodeKind::Intersection, None),
            node(3, NodeKind::ActivityLocation, Some("activity:far")),
        ],
        edges: vec![
            footway(0, 0, 1, Some("walk:0")),
            footway(1, 1, 2, Some("walk:1")),
            footway(2, 2, 3, Some("walk:2")),
        ],
    }
}

/// The walking flow field that leads along the row of nodes to `destination`.
fn chain_field(destination: u32) -> FlowField {
    let entries = (0..destination)
        .map(|n| FlowEntry {
            node: NodeId(n),
            mode: ModeState::Walking,
            next_edge: Some(EdgeId(n)),
            next_mode: ModeState::Walking,
        })
        .collect();
    FlowField { destination: NodeId(destination), entries }
}

fn walking(link: &str, at: WalkPoint) -> AgentState {
    AgentState::Walking { link_id: link.to_string(), at }
}

fn plan_to(link: &str, activity: &str) -> WalkPlan {
    WalkPlan {
        stages: vec![PlanStage::WalkToActivity {
            link_id: link.to_string(),
            activity_id: activity.to_string(),
        }],
        cursor: 0,
        cyclic: false,
    }
}

/// One pass of route assignment for one agent, with `field` standing for the
/// flow field the routing layer builds for the requested destination.
fn assign(
    graph: &RoutingGraph,
    state: &mut AgentState,
    plan: &mut WalkPlan,
    nearest: Option<NodeId>,
    field: impl Fn(NodeId) -> FlowField,
    stats: &mut RouteAssignmentStats,
) -> Option<ActiveRoute> {
    let agent = AgentId("agent:route".into());
    let mut waiting = WaitingAgents::new();
    let request = prepare_route_assignment(
        &agent, state, plan, graph, true, true, nearest, None, &mut waiting, 0,
    );
    stats.record_request(request);
    match request {
        RouteRequest::Route { origin, destination } => {
            let route = finish_route_assignment(state, graph, &field(destination), origin, destination);
            stats.record_assignment(route.is_some());
            route
        }
        _ => None,
    }
}

#[test]
fn destination_for_activity_without_declared_geometry_returns_none() {
    let graph = minimal_graph_with_node_at_5_5();
    let stage = PlanStage::WalkToActivity {
        link_id: "walk:test".into(),
        activity_id: "activity:home".into(),
    };
    assert_eq!(destination_for_stage(&graph, &stage, None), None);
}

#[test]
fn destination_for_activity_prefers_declared_node_then_nearest() {
    let graph = route_graph(Some("activity:work"), true);
    let stage = PlanStage::WalkToActivity { link_id: "walk:a".into(), activity_id: "activity:work".into() };
    assert_eq!(destination_for_stage(&graph, &stage, Some(NodeId(0))), Some(NodeId(2)));
    let other = PlanStage::WalkToActivity { link_id: "walk:a".into(), activity_id: "activity:park".into() };
    assert_eq!(destination_for_stage(&graph, &other, Some(NodeId(1))), Some(NodeId(1)));
    let ride = PlanStage::RideToStop { route_id: "r".into(), stop_id: "s".into() };
    assert_eq!(destination_for_stage(&graph, &ride, Some(NodeId(1))), None);
}

#[test]
fn home_leg_is_never_overridden() {
    let agent = AgentId("agent-1".into());
    let stage = PlanStage::WalkToActivity { link_id: "walk:test".into(), activity_id: "activity:home".into() };
    let mut targets = CitizenEconomicTargets::default();
    targets.insert(agent.clone(), NodeId(99));
    assert_eq!(economic_destination(&stage, &agent, NodeId(1), Some(&targets)), NodeId(1));
}

#[test]
fn destination_leg_with_target_is_overridden() {
    let agent = AgentId("agent-2".into());
    let stage = PlanStage::WalkToActivity { link_id: "walk:test".into(), activity_id: "activity:destination".into() };
    let mut targets = CitizenEconomicTargets::default();
    targets.insert(agent.clone(), NodeId(42));
    assert_eq!(economic_destination(&stage, &agent, NodeId(7), Some(&targets)), NodeId(42));
}

#[test]
fn grouped_destination_leg_with_target_is_overridden() {
    let agent = AgentId("agent-2".into());
    let stage = PlanStage::WalkToActivity {
        link_id: "walk:test".into(),
        activity_id: "activity:spawn:ped:north:destination".into(),
    };
    let mut targets = CitizenEconomicTargets::default();
    targets.insert(agent.clone(), NodeId(42));
    assert_eq!(economic_destination(&stage, &agent, NodeId(7), Some(&targets)), NodeId(42));
}

#[test]
fn destination_leg_without_target_is_geometric() {
    let agent = AgentId("agent-3".into());
    let geometric = NodeId(5);
    let stage = PlanStage::WalkToActivity {
        link_id: "walk:test".into(),
        activity_id: "activity:destination".into(),
    };
    let targets = CitizenEconomicTargets::default();
    let result = economic_destination(&stage, &agent, geometric, Some(&targets));
    assert_eq!(result, geometric, "unattributed citizen must use geometric destination");

    let result_no_targets = economic_destination(&stage, &agent, geometric, None);
    assert_eq!(result_no_targets, geometric, "None targets must use geometric destination");
}

#[test]
fn economic_destination_activity_ids() {
    assert!(is_economic_destination_activity("activity:destination"));
    assert!(is_economic_destination_activity("activity:x:destination"));
    assert!(!is_economic_destination_activity("activity:home"));
    assert!(!is_economic_destination_activity("destination"));
    assert!(!is_economic_destination_activity("act:destination"));
}

#[test]
fn route_execution_tests_route_assignment_inserts_active_route() {
    let graph = route_graph(Some("activity:work"), true);
    let mut state = walking("walk:a", WalkPoint::Start);
    let mut plan = plan_to("walk:a", "activity:work");
    let mut stats = RouteAssignmentStats::default();
    let route = assign(&graph, &mut state, &mut plan, None, |d| chain_field(d.0), &mut stats)
        .expect("route assignment should insert ActiveRoute");
    assert_eq!(route.destination, NodeId(2));
    assert_eq!(route.steps.len(), 2);
    assert_eq!(route.steps[0].canonical_edge_key, "walk:a");
    assert_eq!(route.steps[1].canonical_edge_key, "walk:b");
    assert_eq!(stats.assigned, 1);
}

#[test]
fn route_execution_tests_route_assignment_uses_full_hpa_corridor() {
    let graph = intermediate_cluster_route_graph();
    let mut state = walking("walk:0", WalkPoint::Start);
    let mut plan = plan_to("walk:0", "activity:far");
    let mut stats = RouteAssignmentStats::default();
    let route = assign(&graph, &mut state, &mut plan, None, |d| chain_field(d.0), &mut stats)
        .expect("route assignment should include intermediate corridor clusters");
    assert_eq!(route.destination, NodeId(3));
    assert_eq!(route.steps.len(), 3);
    assert_eq!(stats.assigned, 1);
    assert_eq!(stats.failed, 0);
}

#[test]
fn route_assignment_resolves_activity_destination_through_spatial_index() {
    let graph = route_graph(None, true);
    let mut state = walking("walk:a", WalkPoint::Start);
    let mut plan = plan_to("walk:a", "activity:work");
    let mut stats = RouteAssignmentStats::default();
    // The spatial index finds node 2 nearest the activity's coordinate.
    let route = assign(&graph, &mut state, &mut plan, Some(NodeId(2)), |d| chain_field(d.0), &mut stats)
        .expect("route assignment should use activity geometry and spatial index");
    assert_eq!(route.destination, NodeId(2));
    assert_eq!(stats.assigned, 1);
    assert_eq!(stats.failed, 0);
}

#[test]
fn route_execution_tests_route_assignment_counts_unresolved_destination_as_failed() {
    let graph = route_graph(None, true);
    let mut state = walking("walk:a", WalkPoint::Start);
    let mut plan = plan_to("walk:a", "activity:work");
    let mut stats = RouteAssignmentStats::default();
    // Without a spatial index there is no nearest node.
    let route = assign(&graph, &mut state, &mut plan, None, |d| chain_field(d.0), &mut stats);
    assert!(route.is_none());
    assert_eq!(stats.assigned, 0);
    assert_eq!(stats.skipped, 0);
    assert_eq!(stats.failed, 1);
}

#[test]
fn route_execution_tests_route_assignment_syncs_completed_initial_edge_to_first_step() {
    let graph = route_graph(Some("activity:work"), true);
    let mut state = walking("walk:a", WalkPoint::End);
    let mut plan = plan_to("walk:a", "activity:work");
    let mut stats = RouteAssignmentStats::default();
    let route = assign(&graph, &mut state, &mut plan, None, |d| chain_field(d.0), &mut stats)
        .expect("route from the completed edge's end");
    assert_eq!(route.cursor, 0);
    assert_eq!(route.steps.len(), 1);
    assert_eq!(route.steps[0].canonical_edge_key, "walk:b");
    assert_eq!(state, walking("walk:b", WalkPoint::Start));
}

#[test]
fn route_execution_tests_route_assignment_completes_when_origin_is_destination() {
    let graph = route_graph(Some("activity:work"), true);
    let mut state = walking("walk:b", WalkPoint::End);
    let mut plan = plan_to("walk:a", "activity:work");
    let mut stats = RouteAssignmentStats::default();
    let route = assign(&graph, &mut state, &mut plan, None, |d| chain_field(d.0), &mut stats);
    assert!(route.is_none());
    assert_eq!(plan.cursor, 1);
    assert_eq!(state, AgentState::AtActivity { activity_id: "activity:work".into() });
    assert_eq!(stats.skipped, 1);
}

#[test]
fn route_assignment_does_not_complete_mid_edge_from_destination() {
    let mut graph = route_graph(Some("activity:work"), true);
    graph.nodes.push(node(3, NodeKind::Intersection, None));
    graph.edges.push(footway(2, 2, 3, Some("walk:out")));
    let mut state = walking("walk:out", WalkPoint::Along);
    let mut plan = plan_to("walk:out", "activity:work");
    let mut stats = RouteAssignmentStats::default();
    let route = assign(&graph, &mut state, &mut plan, None, |d| chain_field(d.0), &mut stats);
    assert!(route.is_none());
    assert_eq!(plan.cursor, 0);
    assert_eq!(stats.failed, 1);
    assert_eq!(state, walking("walk:out", WalkPoint::Along));
}

#[test]
fn route_execution_tests_route_assignment_and_advance_accept_graph_native_edge_keys() {
    let graph = route_graph(Some("activity:work"), false);
    let mut state = walking("edge:0", WalkPoint::Start);
    let mut plan = plan_to("edge:0", "activity:work");
    let mut stats = RouteAssignmentStats::default();
    let mut route = assign(&graph, &mut state, &mut plan, None, |d| chain_field(d.0), &mut stats)
        .expect("graph-native keys route");
    assert_eq!(route.steps[0].canonical_edge_key, "edge:0");
    assert_eq!(route.steps[1].canonical_edge_key, "edge:1");

    let agent = AgentId("agent:route".into());
    let mut waiting = WaitingAgents::new();
    state = walking("edge:0", WalkPoint::End);
    let outcome = route_advance(&agent, &mut state, &mut plan, &mut route, &graph, None, &mut waiting);
    assert_eq!(outcome, RouteAdvance::NextStep);
    assert_eq!(route.cursor, 1);
    assert_eq!(state, walking("edge:1", WalkPoint::Start));

    let outcome = route_advance(&agent, &mut state, &mut plan, &mut route, &graph, None, &mut waiting);
    assert_eq!(outcome, RouteAdvance::Continue);

    state = walking("edge:1", WalkPoint::End);
    let outcome = route_advance(&agent, &mut state, &mut plan, &mut route, &graph, None, &mut waiting);
    assert_eq!(outcome, RouteAdvance::Arrived);
    assert_eq!(plan.cursor, 1);
    assert_eq!(state, AgentState::AtActivity { activity_id: "activity:work".into() });
}

#[test]
fn route_advance_invalidates_a_route_the_agent_left() {
    let graph = route_graph(Some("activity:work"), true);
    let mut state = walking("walk:a", WalkPoint::Start);
    let mut plan = plan_to("walk:a", "activity:work");
    let mut stats = RouteAssignmentStats::default();
    let mut route = assign(&graph, &mut state, &mut plan, None, |d| chain_field(d.0), &mut stats).unwrap();
    let agent = AgentId("agent:route".into());
    let mut waiting = WaitingAgents::new();
    state = walking("walk:b", WalkPoint::End);
    let outcome = route_advance(&agent, &mut state, &mut plan, &mut route, &graph, None, &mut waiting);
    assert_eq!(outcome, RouteAdvance::Invalidated);
    stats.record_advance(outcome);
    assert_eq!(stats.failed, 1);
    assert_eq!(state, walking("walk:b", WalkPoint::End));
}

#[test]
fn materialize_stops_on_a_cycle() {
    let graph = RoutingGraph {
        nodes: vec![
            node(0, NodeKind::Intersection, None),
            node(1, NodeKind::Intersection, None),
            node(2, NodeKind::ActivityLocation, None),
        ],
        edges: vec![footway(0, 0, 1, Some("a")), footway(1, 1, 0, Some("b"))],
    };
    let field = FlowField {
        destination: NodeId(2),
        entries: vec![
            FlowEntry { node: NodeId(0), mode: ModeState::Walking, next_edge: Some(EdgeId(0)), next_mode: ModeState::Walking },
            FlowEntry { node: NodeId(1), mode: ModeState::Walking, next_edge: Some(EdgeId(1)), next_mode: ModeState::Walking },
        ],
    };
    assert!(materialize_route_steps(&graph, &field, NodeId(0), ModeState::Walking).is_none());
}

#[test]
fn materialize_from_destination_is_empty_and_dead_end_fails() {
    let graph = route_graph(None, true);
    let field = chain_field(2);
    assert_eq!(materialize_route_steps(&graph, &field, NodeId(2), ModeState::Walking).map(|s| s.len()), Some(0));
    let dead = FlowField {
        destination: NodeId(2),
        entries: vec![FlowEntry { node: NodeId(0), mode: ModeState::Walking, next_edge: None, next_mode: ModeState::Walking }],
    };
    assert!(materialize_route_steps(&graph, &dead, NodeId(0), ModeState::Walking).is_none());
}

fn step(edge: u32, key: &str) -> RouteStep {
    RouteStep { edge_id: EdgeId(edge), mode: ModeState::Walking, canonical_edge_key: key.to_string() }
}

fn walk_route(destination: u32, steps: Vec<RouteStep>, cursor: usize) -> ActiveRoute {
    ActiveRoute { destination: NodeId(destination), profile: RoutingProfileKey::Walk, steps, cursor }
}

/// One route-advance pass for the test agent; an invalidated route is
/// counted as failed, as the advance system does.
fn advance(
    graph: &RoutingGraph,
    state: &mut AgentState,
    plan: &mut WalkPlan,
    route: &mut ActiveRoute,
    waiting: &mut WaitingAgents,
    stats: &mut RouteAssignmentStats,
) -> RouteAdvance {
    let agent = AgentId("agent:route".into());
    let outcome = route_advance(&agent, state, plan, route, graph, None, waiting);
    stats.record_advance(outcome);
    outcome
}

#[test]
fn route_execution_tests_route_advance_crosses_edges_before_finishing_plan() {
    let graph = route_graph(Some("activity:work"), true);
    let mut state = walking("walk:a", WalkPoint::Start);
    let mut plan = plan_to("walk:a", "activity:work");
    let mut stats = RouteAssignmentStats::default();
    let mut route = assign(&graph, &mut state, &mut plan, None, |d| chain_field(d.0), &mut stats).unwrap();
    // The agent walked to the end of the first edge.
    state = walking("walk:a", WalkPoint::End);
    let mut waiting = WaitingAgents::new();
    let outcome = advance(&graph, &mut state, &mut plan, &mut route, &mut waiting, &mut stats);
    assert_eq!(outcome, RouteAdvance::NextStep);
    assert_eq!(state, walking("walk:b", WalkPoint::Start));
    assert_eq!(plan.cursor, 0);
    assert_eq!(route.cursor, 1);
}

#[test]
fn route_execution_tests_route_advance_completes_final_activity_route() {
    let graph = route_graph(Some("activity:work"), true);
    let mut state = walking("walk:b", WalkPoint::End);
    let mut plan = plan_to("walk:a", "activity:work");
    let mut route = walk_route(2, vec![step(1, "walk:b")], 0);
    let mut waiting = WaitingAgents::new();
    let mut stats = RouteAssignmentStats::default();
    let outcome = advance(&graph, &mut state, &mut plan, &mut route, &mut waiting, &mut stats);
    assert_eq!(outcome, RouteAdvance::Arrived);
    assert_eq!(plan.cursor, 1);
    assert_eq!(state, AgentState::AtActivity { activity_id: "activity:work".into() });
}

#[test]
fn route_execution_tests_route_advance_completes_final_stop_route() {
    let graph = route_graph(Some("activity:work"), true);
    let mut state = walking("walk:b", WalkPoint::End);
    let mut plan = WalkPlan {
        stages: vec![PlanStage::WalkToStop { link_id: "walk:b".into(), stop_id: "activity:work".into() }],
        cursor: 0,
        cyclic: false,
    };
    let mut route = walk_route(2, vec![step(1, "walk:b")], 0);
    let mut waiting = WaitingAgents::new();
    let mut stats = RouteAssignmentStats::default();
    let outcome = advance(&graph, &mut state, &mut plan, &mut route, &mut waiting, &mut stats);
    assert_eq!(outcome, RouteAdvance::Arrived);
    assert_eq!(plan.cursor, 1);
    assert_eq!(state, AgentState::WaitingAtStop { stop_id: "activity:work".into() });
    assert!(waiting.is_waiting(NodeId(2), &AgentId("agent:route".into())));
}

#[test]
fn route_execution_tests_route_advance_invalidates_unexpected_current_stage() {
    let graph = route_graph(Some("activity:work"), true);
    let mut state = walking("walk:a", WalkPoint::End);
    let mut plan = WalkPlan {
        stages: vec![PlanStage::Activity { activity_id: "activity:work".into() }],
        cursor: 0,
        cyclic: false,
    };
    let mut route = walk_route(2, vec![step(0, "walk:a")], 0);
    let mut waiting = WaitingAgents::new();
    let mut stats = RouteAssignmentStats::default();
    let outcome = advance(&graph, &mut state, &mut plan, &mut route, &mut waiting, &mut stats);
    assert_eq!(outcome, RouteAdvance::Invalidated);
    assert_eq!(stats.failed, 1);
    assert_eq!(plan.cursor, 0);
    assert_eq!(state, walking("walk:a", WalkPoint::End));
}

#[test]
fn route_execution_tests_route_advance_invalidates_stale_current_link() {
    let graph = route_graph(Some("activity:work"), true);
    let mut state = walking("walk:a", WalkPoint::Start);
    let mut plan = plan_to("walk:a", "activity:work");
    let mut stats = RouteAssignmentStats::default();
    let mut route = assign(&graph, &mut state, &mut plan, None, |d| chain_field(d.0), &mut stats).unwrap();
    state = walking("walk:b", WalkPoint::End);
    let mut waiting = WaitingAgents::new();
    let outcome = advance(&graph, &mut state, &mut plan, &mut route, &mut waiting, &mut stats);
    assert_eq!(outcome, RouteAdvance::Invalidated);
    assert_eq!(stats.failed, 1);
    assert_eq!(state, walking("walk:b", WalkPoint::End));
}

#[test]
fn route_execution_tests_route_advance_invalidates_disconnected_next_step() {
    let graph = route_graph(Some("activity:work"), true);
    let mut state = walking("walk:a", WalkPoint::End);
    let mut plan = plan_to("walk:a", "activity:work");
    let mut route = walk_route(2, vec![step(0, "walk:a"), step(0, "walk:a")], 0);
    let mut waiting = WaitingAgents::new();
    let mut stats = RouteAssignmentStats::default();
    let outcome = advance(&graph, &mut state, &mut plan, &mut route, &mut waiting, &mut stats);
    assert_eq!(outcome, RouteAdvance::Invalidated);
    assert_eq!(stats.failed, 1);
    assert_eq!(state, walking("walk:a", WalkPoint::End));
}

#[test]
fn route_execution_tests_route_advance_invalidates_cursor_past_steps() {
    let graph = route_graph(Some("activity:work"), true);
    let mut state = walking("walk:a", WalkPoint::Start);
    let mut plan = plan_to("walk:a", "activity:work");
    let mut route = walk_route(2, vec![step(0, "walk:a")], 1);
    let mut waiting = WaitingAgents::new();
    let mut stats = RouteAssignmentStats::default();
    let outcome = advance(&graph, &mut state, &mut plan, &mut route, &mut waiting, &mut stats);
    assert_eq!(outcome, RouteAdvance::Invalidated);
    assert_eq!(stats.failed, 1);
}

#[test]
fn route_execution_tests_route_advance_invalidates_when_final_edge_misses_destination() {
    let graph = route_graph(Some("activity:work"), true);
    let mut state = walking("walk:a", WalkPoint::End);
    let mut plan = plan_to("walk:a", "activity:work");
    let mut route = walk_route(2, vec![step(0, "walk:a")], 0);
    let mut waiting = WaitingAgents::new();
    let mut stats = RouteAssignmentStats::default();
    let outcome = advance(&graph, &mut state, &mut plan, &mut route, &mut waiting, &mut stats);
    assert_eq!(outcome, RouteAdvance::Invalidated);
    assert_eq!(stats.failed, 1);
    assert_eq!(state, walking("walk:a", WalkPoint::End));
    assert_eq!(plan.cursor, 0);
}

#[test]
fn route_execution_tests_route_advance_invalidates_when_stage_destination_mismatches_route() {
    let graph = route_graph(Some("activity:work"), true);
    let mut state = walking("walk:a", WalkPoint::End);
    let mut plan = plan_to("walk:a", "activity:work");
    let mut route = walk_route(1, vec![step(0, "walk:a")], 0);
    let mut waiting = WaitingAgents::new();
    let mut stats = RouteAssignmentStats::default();
    let outcome = advance(&graph, &mut state, &mut plan, &mut route, &mut waiting, &mut stats);
    assert_eq!(outcome, RouteAdvance::Invalidated);
    assert_eq!(stats.failed, 1);
    assert_eq!(state, walking("walk:a", WalkPoint::End));
    assert_eq!(plan.cursor, 0);
}

#[test]
fn route_assignment_activity_walker_continues_on_connected_footway() {
    let mut graph = route_graph(Some("activity:work"), true);
    graph.nodes.push(node(3, NodeKind::Intersection, None));
    graph.edges.push(footway(2, 2, 3, Some("walk:out")));
    let mut state = walking("walk:b", WalkPoint::End);
    let mut plan = WalkPlan {
        stages: vec![PlanStage::Activity { activity_id: "activity:wander".into() }],
        cursor: 0,
        cyclic: false,
    };
    let agent = AgentId("agent:route".into());
    let mut waiting = WaitingAgents::new();
    let _ = prepare_route_assignment(&agent, &mut state, &mut plan, &graph, true, true, None, None, &mut waiting, 0);
    // The link switch is what the mobility delta publishes.
    assert_eq!(state, walking("walk:out", WalkPoint::Start));
    assert_eq!(plan.cursor, 0);
}

#[test]
fn activity_geometry_uses_default_when_unknown() {
    assert_eq!(activity_anchor_chunk("activity:work"), ChunkCoord { x: 5, y: 4 });
    assert_eq!(activity_anchor_chunk("activity:unknown"), ChunkCoord { x: 4, y: 4 });
    assert_eq!(activity_anchor_chunk("activity:home"), ChunkCoord { x: 4, y: 4 });
    let known = activity_anchor_chunk("activity:work");
    assert!(known.x as f32 * 32.0 + 16.0 >= 0.0);
}

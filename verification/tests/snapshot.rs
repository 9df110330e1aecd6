use sim_core::graph::{EdgeKind, GraphEdge, GraphNode, NodeKind, RoutingGraph};
use sim_core::ids::{AgentId, EdgeId, NodeId};
use sim_core::plan::WalkPoint;
use sim_core::records::{PersistedRoute, PlanStage};
use sim_core::restore::{
    check_active_route, edge_kind_for_mode, initial_mode_for_profile, normalize_active_route,
    PersistedActiveRoute, PersistedRouteStep,
};
use sim_core::routing::{ModeState, RoutingProfileKey};
use sim_core::snapshot_graph::{
    check_routing_restorable, install_snapshot_routing, persisted_route_of, persisted_walking_links, AgentLinkUses,
    LinkEnds, PointKey, StopPlacement,
};
use sim_core::sorting::sort_by_key;

fn p(x: u32, y: u32) -> PointKey {
    PointKey { x, y }
}

fn ends(link: &str, a: PointKey, b: PointKey) -> LinkEnds {
    LinkEnds { link_id: link.to_string(), start: a, end: b }
}

fn route(id: &str, links: &[&str]) -> PersistedRoute {
    PersistedRoute { id: id.to_string(), links: links.iter().map(|l| l.to_string()).collect() }
}

fn walker(link: &str) -> AgentLinkUses {
    AgentLinkUses {
        walking_link: Some(link.to_string()),
        plan: vec![PlanStage::WalkToActivity { link_id: link.to_string(), activity_id: "activity:home".into() }],
        route_steps: vec![],
    }
}

/// A route of two links over points 0-1-2, a walking link 1-3, and a stop
/// half way along the route's first link.
fn sample() -> (Vec<PersistedRoute>, Vec<AgentLinkUses>, Vec<String>, Vec<LinkEnds>, Vec<StopPlacement>) {
    let routes = vec![route("route:b", &["l:2"]), route("route:a", &["l:1", "l:2"])];
    let agents = vec![walker("link:walk:x")];
    let polylines = vec!["link:walk:x".to_string(), "l:1".to_string()];
    let table = vec![
        ends("l:1", p(0, 0), p(1, 0)),
        ends("l:2", p(1, 0), p(2, 0)),
        ends("link:walk:x", p(1, 0), p(1, 1)),
    ];
    let stops = vec![StopPlacement {
        id: "stop:1".into(),
        route_id: "route:a".into(),
        link_index: 0,
        at: WalkPoint::Along,
        waiting_agents: vec![AgentId("a:1".into())],
    }];
    (routes, agents, polylines, table, stops)
}

#[test]
fn snapshot_routing_is_rebuilt_with_shared_nodes_and_reverse_footways() {
    let (routes, agents, polylines, table, stops) = sample();
    assert!(check_routing_restorable(&routes, &agents, &polylines, &table, &stops));
    let r = install_snapshot_routing(routes, &agents, &polylines, &table, stops);
    // Routes by id: route:a adds l:1 and l:2, route:b reuses l:2.
    assert_eq!(r.routes[0].id, "route:a");
    assert_eq!(r.routes[1].id, "route:b");
    let names: Vec<Option<String>> = r.graph.edges.iter().map(|e| e.legacy_id.clone()).collect();
    assert_eq!(
        names,
        vec![Some("l:1".into()), Some("l:2".into()), Some("link:walk:x".into()), None]
    );
    assert_eq!(r.graph.edges[0].kind, EdgeKind::Road);
    assert_eq!(r.graph.edges[2].kind, EdgeKind::Footway);
    assert_eq!(r.graph.edges[3].kind, EdgeKind::Footway);
    assert_eq!(r.graph.edges[3].from, r.graph.edges[2].to);
    assert_eq!(r.graph.edges[3].to, r.graph.edges[2].from);
    // l:1 and l:2 meet at the node of point (1, 0), as does the walking link.
    assert_eq!(r.graph.edges[0].to, r.graph.edges[1].from);
    assert_eq!(r.graph.edges[2].from, r.graph.edges[1].from);
    // Four point nodes and one stop node along l:1.
    assert_eq!(r.graph.nodes.len(), 5);
    assert_eq!(r.stop_nodes.len(), 1);
    let stop = r.stop_nodes[0];
    assert_eq!(r.graph.nodes[stop.0 as usize].kind, NodeKind::TransitStop);
    assert_eq!(r.graph.nodes[stop.0 as usize].legacy_ids, vec!["stop:1".to_string()]);
    assert_eq!(r.point_keys[stop.0 as usize], None);
    assert_eq!(r.waiting.front(stop), Some(AgentId("a:1".into())));
    // Traffic routes follow the sorted routes.
    assert_eq!(r.traffic_routes.len(), 2);
    assert_eq!(r.traffic_routes[0].legacy_route_id, "route:a");
    assert_eq!(r.traffic_routes[0].edges, vec![EdgeId(0), EdgeId(1)]);
    assert_eq!(r.traffic_routes[1].edges, vec![EdgeId(1)]);
}

#[test]
fn snapshot_routing_is_not_restorable_without_link_ends_or_with_unknown_stops() {
    let (routes, agents, polylines, table, stops) = sample();
    let missing: Vec<LinkEnds> = table.iter().filter(|e| e.link_id != "l:2").cloned().collect();
    assert!(!check_routing_restorable(&routes, &agents, &polylines, &missing, &stops));
    let mut bad_stops = stops.clone();
    bad_stops[0].link_index = 2;
    assert!(!check_routing_restorable(&routes, &agents, &polylines, &table, &bad_stops));
    bad_stops[0].link_index = 0;
    bad_stops[0].route_id = "route:z".into();
    assert!(!check_routing_restorable(&routes, &agents, &polylines, &table, &bad_stops));
}

#[test]
fn walking_links_conflicting_in_kind_are_refused() {
    let road_user = AgentLinkUses {
        walking_link: None,
        plan: vec![],
        route_steps: vec![PersistedRouteStep { edge_id: 0, mode: ModeState::Driving, canonical_edge_key: "l:9".into() }],
    };
    let walker_on_it = walker("l:9");
    assert!(persisted_walking_links(&vec![road_user.clone(), walker_on_it]).is_none());
    let listed = persisted_walking_links(&vec![road_user, walker("l:8")]).unwrap();
    let names: Vec<&str> = listed.iter().map(|l| l.link_id.as_str()).collect();
    assert_eq!(names, vec!["l:8", "l:9"]);
}

#[test]
fn sort_by_key_orders_routes_by_id() {
    let sorted = sort_by_key(vec![route("c", &[]), route("a", &[]), route("b", &[])]);
    let ids: Vec<&str> = sorted.iter().map(|r| r.id.as_str()).collect();
    assert_eq!(ids, vec!["a", "b", "c"]);
}

fn line_graph() -> RoutingGraph {
    RoutingGraph {
        nodes: (0..3).map(|i| GraphNode { id: NodeId(i), kind: NodeKind::Intersection, legacy_ids: vec![] }).collect(),
        edges: vec![
            GraphEdge { id: EdgeId(0), from: NodeId(0), to: NodeId(1), kind: EdgeKind::Footway, legacy_id: Some("walk:a".into()) },
            GraphEdge { id: EdgeId(1), from: NodeId(1), to: NodeId(2), kind: EdgeKind::Footway, legacy_id: None },
        ],
    }
}

fn persisted(profile: RoutingProfileKey, keys: &[&str], cursor: usize) -> PersistedActiveRoute {
    PersistedActiveRoute {
        destination_node: 99,
        profile,
        cursor,
        steps: keys
            .iter()
            .map(|k| PersistedRouteStep { edge_id: 77, mode: ModeState::Walking, canonical_edge_key: k.to_string() })
            .collect(),
    }
}

/// The transitions of a walking profile that keeps walking on every step.
fn walking_on(steps: usize) -> Vec<Option<ModeState>> {
    vec![Some(ModeState::Walking); steps]
}

#[test]
fn persisted_active_route_is_checked_and_normalized_against_the_graph() {
    let graph = line_graph();
    let good = persisted(RoutingProfileKey::Walk, &["walk:a", "edge:1"], 1);
    assert!(check_active_route(&graph, &good, &walking_on(2)));
    let n = normalize_active_route(&graph, &good, &walking_on(2));
    assert_eq!(n.destination_node, 2);
    assert_eq!(n.cursor, 1);
    assert_eq!(n.steps[0].edge_id, 0);
    assert_eq!(n.steps[1].edge_id, 1);
    assert_eq!(n.steps[1].canonical_edge_key, "edge:1");
    // Disconnected, unknown, retired profile, cursor past the end, empty.
    assert!(!check_active_route(&graph, &persisted(RoutingProfileKey::Walk, &["edge:1", "walk:a"], 0), &walking_on(2)));
    assert!(!check_active_route(&graph, &persisted(RoutingProfileKey::Walk, &["walk:zz"], 0), &walking_on(1)));
    assert!(!check_active_route(&graph, &persisted(RoutingProfileKey::Tram, &["walk:a"], 0), &walking_on(1)));
    assert!(!check_active_route(&graph, &persisted(RoutingProfileKey::Walk, &["walk:a"], 1), &walking_on(1)));
    assert!(!check_active_route(&graph, &persisted(RoutingProfileKey::Walk, &[], 0), &walking_on(0)));
    // A step whose mode is not what the profile gives, or that the profile
    // cannot take at all.
    assert!(!check_active_route(&graph, &good, &vec![Some(ModeState::Walking), Some(ModeState::Driving)]));
    assert!(!check_active_route(&graph, &good, &vec![None, Some(ModeState::Walking)]));
    assert!(!check_active_route(&graph, &good, &walking_on(1)));
}

#[test]
fn modes_and_profiles_map_to_edge_kinds_and_start_modes() {
    assert_eq!(edge_kind_for_mode(ModeState::Walking), EdgeKind::Footway);
    assert_eq!(edge_kind_for_mode(ModeState::Driving), EdgeKind::Road);
    assert_eq!(initial_mode_for_profile(RoutingProfileKey::Walk), ModeState::Walking);
    assert_eq!(initial_mode_for_profile(RoutingProfileKey::WalkTransit), ModeState::Walking);
    assert_eq!(initial_mode_for_profile(RoutingProfileKey::Car), ModeState::Driving);
}

#[test]
fn sorting_does_not_depend_on_input_order() {
    let a = sort_by_key(vec![route("r:2", &["x"]), route("r:1", &["y"]), route("r:3", &[])]);
    let b = sort_by_key(vec![route("r:3", &[]), route("r:2", &["x"]), route("r:1", &["y"])]);
    assert_eq!(a, b);
}

#[test]
fn persisting_rebuilt_traffic_routes_gives_back_the_routes() {
    let (routes, agents, polylines, table, stops) = sample();
    let r = install_snapshot_routing(routes, &agents, &polylines, &table, stops);
    for (t, route) in r.traffic_routes.iter().zip(r.routes.iter()) {
        assert_eq!(&persisted_route_of(&r.graph, t), route);
    }
    let unnamed = sim_core::snapshot_graph::TrafficRoute {
        id: 9,
        name: "x".into(),
        edges: vec![EdgeId(3), EdgeId(0)],
        legacy_route_id: "route:x".into(),
    };
    let p = persisted_route_of(&r.graph, &unnamed);
    assert_eq!(p.id, "route:x");
    assert_eq!(p.links, vec!["edge:3".to_string(), "l:1".to_string()]);
}

#[test]
fn rebuilt_links_resolve_to_their_edges() {
    let (routes, agents, polylines, table, stops) = sample();
    let r = install_snapshot_routing(routes, &agents, &polylines, &table, stops);
    assert_eq!(r.graph.resolve_canonical_edge_key("l:1"), Some(EdgeId(0)));
    assert_eq!(r.graph.resolve_canonical_edge_key("l:2"), Some(EdgeId(1)));
    assert_eq!(r.graph.resolve_canonical_edge_key("link:walk:x"), Some(EdgeId(2)));
    // The reverse footway is reached by its graph-native key.
    assert_eq!(r.graph.resolve_canonical_edge_key("edge:3"), Some(EdgeId(3)));
    let route = persisted(RoutingProfileKey::Walk, &["l:1", "l:2"], 0);
    assert!(check_active_route(&r.graph, &route, &walking_on(2)));
    assert_eq!(normalize_active_route(&r.graph, &route, &walking_on(2)).destination_node, r.graph.edges[1].to.0);
}

#[test]
fn stops_at_link_start_and_end_land_on_the_edge_ends() {
    let (routes, agents, polylines, table, _) = sample();
    let stops = vec![
        StopPlacement {
            id: "stop:end".into(),
            route_id: "route:a".into(),
            link_index: 1,
            at: WalkPoint::End,
            waiting_agents: vec![],
        },
        StopPlacement {
            id: "stop:start".into(),
            route_id: "route:a".into(),
            link_index: 0,
            at: WalkPoint::Start,
            waiting_agents: vec![AgentId("a:2".into())],
        },
    ];
    assert!(check_routing_restorable(&routes, &agents, &polylines, &table, &stops));
    let r = install_snapshot_routing(routes, &agents, &polylines, &table, stops);
    // Stops sorted by id: stop:end, then stop:start.
    assert_eq!(r.stops[0].id, "stop:end");
    assert_eq!(r.stop_nodes[0], r.graph.edges[1].to);
    assert_eq!(r.stop_nodes[1], r.graph.edges[0].from);
    // No node was added for them.
    assert_eq!(r.graph.nodes.len(), 4);
    assert_eq!(r.graph.nodes[r.stop_nodes[1].0 as usize].kind, NodeKind::TransitStop);
    assert_eq!(r.waiting.front(r.stop_nodes[1]), Some(AgentId("a:2".into())));
}

#[test]
fn agent_links_are_built_in_link_order_after_the_route_links() {
    let routes = vec![route("route:a", &["l:1"])];
    let agents = vec![walker("link:walk:b"), walker("link:walk:a")];
    let polylines = vec!["link:walk:c".to_string()];
    let table = vec![
        ends("l:1", p(0, 0), p(1, 0)),
        ends("link:walk:a", p(1, 0), p(1, 1)),
        ends("link:walk:b", p(1, 1), p(2, 1)),
        ends("link:walk:c", p(2, 1), p(2, 2)),
    ];
    assert!(check_routing_restorable(&routes, &agents, &polylines, &table, &vec![]));
    let r = install_snapshot_routing(routes, &agents, &polylines, &table, vec![]);
    let names: Vec<Option<String>> = r.graph.edges.iter().map(|e| e.legacy_id.clone()).collect();
    assert_eq!(
        names,
        vec![
            Some("l:1".into()),
            Some("link:walk:a".into()),
            None,
            Some("link:walk:b".into()),
            None,
            Some("link:walk:c".into()),
            None,
        ]
    );
}

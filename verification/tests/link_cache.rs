use sim_core::graph::{EdgeKind, GraphEdge, GraphNode, NodeKind, RoutingGraph};
use sim_core::ids::{EdgeId, NodeId};
use sim_core::link_cache::{
    agent_cache_action, cached_polyline_current, traffic_route_edge, vehicle_cache_action, CacheAction,
};
use sim_core::snapshot_graph::TrafficRoute;

fn graph() -> RoutingGraph {
    RoutingGraph {
        nodes: (0..3).map(|i| GraphNode { id: NodeId(i), kind: NodeKind::Intersection, legacy_ids: vec![] }).collect(),
        edges: vec![
            GraphEdge { id: EdgeId(0), from: NodeId(0), to: NodeId(1), kind: EdgeKind::Footway, legacy_id: Some("l:1".into()) },
            GraphEdge { id: EdgeId(1), from: NodeId(1), to: NodeId(2), kind: EdgeKind::Road, legacy_id: None },
        ],
    }
}

fn routes() -> Vec<TrafficRoute> {
    vec![TrafficRoute { id: 0, name: "r".into(), edges: vec![EdgeId(0), EdgeId(1)], legacy_route_id: "r".into() }]
}

#[test]
fn tests_current_link_polyline_invalidates_on_walker_link_change() {
    let g = graph();
    assert_eq!(agent_cache_action(&g, Some("l:1"), None), CacheAction::Load { edge: EdgeId(0) });
    assert_eq!(agent_cache_action(&g, Some("l:1"), Some("l:1")), CacheAction::Keep);
    assert_eq!(agent_cache_action(&g, Some("edge:1"), Some("l:1")), CacheAction::Load { edge: EdgeId(1) });
    // An unknown link keeps what is cached; a walker that stopped walking drops it.
    assert_eq!(agent_cache_action(&g, Some("l:zz"), Some("l:1")), CacheAction::Keep);
    assert_eq!(agent_cache_action(&g, None, Some("l:1")), CacheAction::Drop);
    assert_eq!(agent_cache_action(&g, None, None), CacheAction::Keep);
}

#[test]
fn tests_current_link_polyline_invalidates_on_vehicle_link_change() {
    let g = graph();
    let rs = routes();
    let on0 = traffic_route_edge(&rs, 0, 0);
    let on1 = traffic_route_edge(&rs, 0, 1);
    assert_eq!(on1, Some(EdgeId(1)));
    assert_eq!(vehicle_cache_action(&g, on0, Some("l:1")), CacheAction::Keep);
    assert_eq!(vehicle_cache_action(&g, on1, Some("l:1")), CacheAction::Load { edge: EdgeId(1) });
    assert_eq!(vehicle_cache_action(&g, on1, Some("edge:1")), CacheAction::Keep);
    assert_eq!(vehicle_cache_action(&g, traffic_route_edge(&rs, 0, 2), Some("edge:1")), CacheAction::Drop);
    assert_eq!(traffic_route_edge(&rs, 5, 0), None);
}

#[test]
fn compute_world_coord_ignores_stale_vehicle_polyline_cache() {
    let g = graph();
    let rs = routes();
    assert!(!cached_polyline_current(&g, traffic_route_edge(&rs, 0, 1), Some("l:1")));
    assert!(cached_polyline_current(&g, traffic_route_edge(&rs, 0, 1), Some("edge:1")));
    assert!(!cached_polyline_current(&g, traffic_route_edge(&rs, 0, 9), Some("edge:1")));
    assert!(!cached_polyline_current(&g, traffic_route_edge(&rs, 0, 0), None));
}

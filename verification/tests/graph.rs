use sim_core::graph::{parse_edge_key, EdgeKind, GraphEdge, GraphNode, NodeKind, RoutingGraph};
use sim_core::ids::{AgentId, EdgeId, NodeId};
use sim_core::plan::WalkPoint;
use sim_core::text::{parse_u32_str, prefixed_decimal};
use sim_core::wander::{next_wander_footway_link, wander_seed};

fn footway(id: u32, from: u32, to: u32, legacy: Option<&str>) -> GraphEdge {
    GraphEdge { id: EdgeId(id), from: NodeId(from), to: NodeId(to), kind: EdgeKind::Footway, legacy_id: legacy.map(str::to_string) }
}

/// Node 1 is reached over `walk:a` and has two footways leaving it, plus a
/// road.
fn fork() -> RoutingGraph {
    RoutingGraph {
        nodes: (0..5).map(|i| GraphNode { id: NodeId(i), kind: NodeKind::Intersection, legacy_ids: vec![] }).collect(),
        edges: vec![
            footway(0, 0, 1, Some("walk:a")),
            footway(1, 1, 2, Some("walk:y")),
            footway(2, 1, 3, None),
            GraphEdge { id: EdgeId(3), from: NodeId(1), to: NodeId(4), kind: EdgeKind::Road, legacy_id: Some("road".into()) },
        ],
    }
}

#[test]
fn canonical_keys_round_trip() {
    let g = fork();
    assert_eq!(g.canonical_edge_key(EdgeId(1)), "walk:y");
    assert_eq!(g.canonical_edge_key(EdgeId(2)), "edge:2");
    for i in 0..4 {
        let key = g.canonical_edge_key(EdgeId(i));
        assert_eq!(g.resolve_canonical_edge_key(&key), Some(EdgeId(i)));
        assert!(g.canonical_key_matches(EdgeId(i), &key));
    }
    assert!(!g.canonical_key_matches(EdgeId(2), "edge:1"));
    // A graph-native key only names an edge without a legacy id.
    assert_eq!(g.resolve_canonical_edge_key("edge:1"), None);
    assert_eq!(g.resolve_canonical_edge_key("edge:9"), None);
    assert_eq!(g.resolve_canonical_edge_key("walk:zz"), None);
}

#[test]
fn edge_keys_parse_only_plain_decimals() {
    assert_eq!(parse_edge_key("edge:42"), Some(EdgeId(42)));
    assert_eq!(parse_edge_key("edge:4294967295"), Some(EdgeId(u32::MAX)));
    assert_eq!(parse_edge_key("edge:4294967296"), None);
    assert_eq!(parse_edge_key("edge:"), None);
    assert_eq!(parse_edge_key("edge:1x"), None);
    assert_eq!(parse_edge_key("walk:1"), None);
    assert_eq!(parse_u32_str("0"), Some(0));
    assert_eq!(prefixed_decimal("edge:", 1234), "edge:1234");
    for n in [0u32, 7, 10, 99_999, u32::MAX] {
        assert_eq!(parse_u32_str(&n.to_string()), Some(n));
    }
}

#[test]
fn legacy_lookups_find_the_first_match() {
    let mut g = fork();
    g.nodes[3].legacy_ids = vec!["stop:a".into(), "stop:b".into()];
    g.nodes[4].legacy_ids = vec!["stop:b".into()];
    assert_eq!(g.node_by_legacy("stop:b"), Some(NodeId(3)));
    assert_eq!(g.node_by_legacy("stop:c"), None);
    assert_eq!(g.edge_by_legacy("road"), Some(EdgeId(3)));
    assert_eq!(g.edge_by_legacy("edge:2"), None);
    assert_eq!(g.edge_count(), 4);
    assert_eq!(g.node_count(), 5);
}

fn fnv(bytes: &[u8]) -> u64 {
    let mut h: u64 = 0xcbf29ce484222325;
    for b in bytes {
        h ^= u64::from(*b);
        h = h.wrapping_mul(0x100000001b3);
    }
    h
}

#[test]
fn wandering_picks_the_seeded_footway_among_the_sorted_others() {
    let g = fork();
    let agent = AgentId("agent:walk:3".into());
    for tick in 0..6u64 {
        let mut bytes = Vec::new();
        bytes.extend_from_slice(b"agent:walk:3");
        bytes.extend_from_slice(b"walk:a");
        bytes.extend_from_slice(&tick.to_le_bytes());
        let seed = fnv(&bytes);
        assert_eq!(seed, wander_seed("agent:walk:3", "walk:a", tick));
        // Sorted candidates: "edge:2" < "walk:y"; the road is no footway.
        let expected = ["edge:2", "walk:y"][(seed % 2) as usize];
        let picked = next_wander_footway_link(&g, "walk:a", WalkPoint::End, &agent, tick);
        assert_eq!(picked.as_deref(), Some(expected));
        // Deterministic.
        assert_eq!(next_wander_footway_link(&g, "walk:a", WalkPoint::End, &agent, tick), picked);
    }
}

#[test]
fn wandering_turns_back_at_a_dead_end_and_fails_on_unknown_links() {
    let g = fork();
    let agent = AgentId("a".into());
    // At the end of walk:y (node 2) nothing else leaves; nothing leaves node 2 at all.
    assert_eq!(next_wander_footway_link(&g, "walk:y", WalkPoint::End, &agent, 0), None);
    // At the start of walk:a (node 0) the only footway is walk:a itself.
    assert_eq!(next_wander_footway_link(&g, "walk:a", WalkPoint::Start, &agent, 0).as_deref(), Some("walk:a"));
    assert_eq!(next_wander_footway_link(&g, "walk:nowhere", WalkPoint::End, &agent, 0), None);
}

use sim_core::graph::{EdgeKind, GraphEdge, GraphNode, NodeKind, RoutingGraph};
use sim_core::ids::{AgentId, ChunkCoord, EdgeId, NodeId};
use sim_core::lod::{collapse_outflow, lod_seed, lod_spawn, lod_spawn_link};
use sim_core::wander::wander_seed;

fn fnv(bytes: &[u8]) -> u64 {
    let mut h: u64 = 0xcbf29ce484222325;
    for b in bytes {
        h ^= u64::from(*b);
        h = h.wrapping_mul(0x100000001b3);
    }
    h
}

fn lod_bytes(x: i32, y: i32, tick: u64, n: u64) -> Vec<u8> {
    let mut v = Vec::new();
    v.extend_from_slice(&(x as u32).to_le_bytes());
    v.extend_from_slice(&(y as u32).to_le_bytes());
    v.extend_from_slice(&tick.to_le_bytes());
    v.extend_from_slice(&n.to_le_bytes());
    v
}

#[test]
fn lod_seed_is_fnv1a_over_little_endian_words() {
    assert_eq!(lod_seed(0, 0, 0, 0), fnv(&[0u8; 24]));
    assert_eq!(lod_seed(3, -2, 120, 7), fnv(&lod_bytes(3, -2, 120, 7)));
    assert_ne!(lod_seed(3, -2, 120, 7), lod_seed(3, -2, 120, 8));
}

#[test]
fn fnv_of_nothing_is_the_offset() {
    assert_eq!(wander_seed("", "", 0), fnv(&[0u8; 8]));
    assert_eq!(fnv(&[]), 0xcbf29ce484222325);
}

#[test]
fn wander_seed_hashes_agent_link_and_tick() {
    let mut bytes = Vec::new();
    bytes.extend_from_slice("agent:1".as_bytes());
    bytes.extend_from_slice("link:walk:a".as_bytes());
    bytes.extend_from_slice(&42u64.to_le_bytes());
    assert_eq!(wander_seed("agent:1", "link:walk:a", 42), fnv(&bytes));
    // Non-ASCII ids hash their UTF-8 bytes.
    let mut utf = Vec::new();
    utf.extend_from_slice("agént".as_bytes());
    utf.extend_from_slice(&0u64.to_le_bytes());
    assert_eq!(wander_seed("agént", "", 0), fnv(&utf));
}

#[test]
fn promote_warm_is_deterministic_across_runs() {
    let c = ChunkCoord { x: -1, y: 4 };
    let a = lod_spawn(c, 30, 2);
    let b = lod_spawn(c, 30, 2);
    assert_eq!(a, b);
    let seed = fnv(&lod_bytes(-1, 4, 30, 2));
    assert_eq!(a.agent_id, "agent:lod:-1:4:30:2");
    assert_eq!(a.activity_id, "activity:lod:-1:4:2");
    assert_eq!(a.sprite_key, format!("pedestrian:{}", seed % 16));
    assert_eq!(a.progress_permille, seed % 1000);
    let _ = AgentId(a.agent_id);
}

fn spawn_graph() -> RoutingGraph {
    RoutingGraph {
        nodes: (0..3).map(|i| GraphNode { id: NodeId(i), kind: NodeKind::Intersection, legacy_ids: vec![] }).collect(),
        edges: vec![
            GraphEdge { id: EdgeId(0), from: NodeId(0), to: NodeId(1), kind: EdgeKind::Road, legacy_id: Some("road".into()) },
            GraphEdge { id: EdgeId(1), from: NodeId(1), to: NodeId(2), kind: EdgeKind::Footway, legacy_id: None },
            GraphEdge { id: EdgeId(2), from: NodeId(2), to: NodeId(0), kind: EdgeKind::Footway, legacy_id: Some("walk:2".into()) },
        ],
    }
}

#[test]
fn promote_warm_spawns_on_the_first_named_footway_in_the_chunk() {
    let g = spawn_graph();
    assert_eq!(lod_spawn_link(&g, &vec![true, true, true]).as_deref(), Some("walk:2"));
    assert_eq!(lod_spawn_link(&g, &vec![true, true, false]), None);
}

#[test]
fn demote_active_to_warm_counts_outflow_by_destination() {
    let here = ChunkCoord { x: 0, y: 0 };
    let east = ChunkCoord { x: 1, y: 0 };
    let out = collapse_outflow(here, &vec![Some(east), None, Some(east), Some(here)]);
    assert_eq!(out.len(), 2);
    assert_eq!(out.get(&east), Some(&2));
    assert_eq!(out.get(&here), Some(&2));
    assert_eq!(collapse_outflow(here, &vec![]).len(), 0);
}

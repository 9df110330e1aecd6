use sim_core::assoc::AssocList;
use sim_core::deltas::{assemble_chunk_deltas, ChangedEntity};
use sim_core::ids::{AgentId, ChunkCoord, VehicleId};

fn c(x: i32, y: i32) -> ChunkCoord {
    ChunkCoord { x, y }
}

fn walker_at(chunk: ChunkCoord, record: &str) -> ChangedEntity<AgentId, String> {
    ChangedEntity { id: AgentId("walker".into()), chunk, record: record.to_string() }
}

#[test]
fn tick_mobility_returns_per_chunk_deltas_with_changed_and_left() {
    let mut prev_agents: AssocList<AgentId, ChunkCoord> = AssocList::new();
    let mut prev_vehicles: AssocList<VehicleId, ChunkCoord> = AssocList::new();
    let none: Vec<ChangedEntity<VehicleId, String>> = vec![];

    let map1 = assemble_chunk_deltas(vec![walker_at(c(0, 0), "t1")], none.clone(), &mut prev_agents, &mut prev_vehicles);
    let delta1 = &map1.get(&c(0, 0)).expect("tick 1: agent should be in chunk(0,0)");
    assert!(!delta1.changed_agents.is_empty());
    assert!(delta1.left_agents.is_empty(), "first tick: no previous chunk to leave");

    // Still in (0, 0), then across the boundary into (1, 0).
    let _ = assemble_chunk_deltas(vec![walker_at(c(0, 0), "t2")], none.clone(), &mut prev_agents, &mut prev_vehicles);
    let map = assemble_chunk_deltas(vec![walker_at(c(1, 0), "t3")], none, &mut prev_agents, &mut prev_vehicles);
    let left = map.get(&c(0, 0)).expect("chunk (0,0) publishes the departure");
    assert!(left.left_agents.iter().any(|id| id.0 == "walker"), "walker shows up in chunk(0,0).left_agents when it crosses out");
    assert!(left.changed_agents.is_empty());
    assert!(
        map.get(&c(1, 0)).map(|d| d.changed_agents.iter().any(|r| r == "t3")).unwrap_or(false),
        "walker shows up in chunk(1,0).changed_agents when it crosses in"
    );
    assert_eq!(prev_agents.get(&AgentId("walker".into())), Some(&c(1, 0)));
}

#[test]
fn tick_mobility_omits_unchanged_chunks() {
    let mut prev_agents: AssocList<AgentId, ChunkCoord> = AssocList::new();
    let mut prev_vehicles: AssocList<VehicleId, ChunkCoord> = AssocList::new();
    let none: Vec<ChangedEntity<VehicleId, String>> = vec![];
    let _ = assemble_chunk_deltas(vec![walker_at(c(0, 0), "t1")], none.clone(), &mut prev_agents, &mut prev_vehicles);
    // The stationary agent is not dirty on the second tick.
    let map = assemble_chunk_deltas::<String, String>(vec![], none, &mut prev_agents, &mut prev_vehicles);
    assert!(
        map.get(&c(0, 0)).map(|d| d.changed_agents.is_empty() && d.left_agents.is_empty()).unwrap_or(true),
        "chunk with no changes should either be absent or have empty changed/left lists"
    );
    assert_eq!(map.len(), 0);
}

#[test]
fn vehicles_and_agents_share_chunk_deltas() {
    let mut prev_agents: AssocList<AgentId, ChunkCoord> = AssocList::new();
    let mut prev_vehicles: AssocList<VehicleId, ChunkCoord> = AssocList::new();
    let agents = vec![walker_at(c(2, 2), "a")];
    let vehicles = vec![
        ChangedEntity { id: VehicleId("v:1".into()), chunk: c(2, 2), record: 7u32 },
        ChangedEntity { id: VehicleId("v:2".into()), chunk: c(3, 2), record: 8u32 },
    ];
    let map = assemble_chunk_deltas(agents, vehicles, &mut prev_agents, &mut prev_vehicles);
    assert_eq!(map.len(), 2);
    let d = map.get(&c(2, 2)).unwrap();
    assert_eq!(d.chunk, c(2, 2));
    assert_eq!(d.changed_agents, vec!["a".to_string()]);
    assert_eq!(d.changed_vehicles, vec![7]);
    assert_eq!(map.get(&c(3, 2)).unwrap().changed_vehicles, vec![8]);
}

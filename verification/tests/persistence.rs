use sim_core::ids::ChunkCoord;
use sim_core::persistence::{
    build_chunk_snapshot_from_parts, ChunkActivity, ChunkSnapshotStoreError, EconomySnapshotStore,
    EconomySnapshotStoreError, InMemoryChunkSnapshotStore, InMemoryEconomySnapshotStore,
    InMemoryMobilitySnapshotStore, MobilitySnapshotStore, MobilitySnapshotStoreError,
    SnapshotCompatibility, TileKind, TileRecord,
};

fn grass_tiles(n: usize) -> Vec<TileRecord> {
    vec![TileRecord { kind: TileKind::Grass, version: 0 }; n]
}

/// A 32x32 chunk's tiles with the given kinds set, each set bumping the
/// chunk version.
fn chunk_tiles(sets: &[(usize, TileKind)]) -> (Vec<TileRecord>, u64) {
    let mut tiles = grass_tiles(32 * 32);
    let mut version = 0u64;
    for (index, kind) in sets {
        version += 1;
        tiles[*index] = TileRecord { kind: *kind, version };
    }
    (tiles, version)
}

#[test]
fn build_chunk_snapshot_accepts_u16_max_tiles() {
    let tiles = grass_tiles(usize::from(u16::MAX));
    let dto = build_chunk_snapshot_from_parts("abutopia", ChunkCoord { x: 0, y: 0 }, &tiles, 1, ChunkActivity::Active);
    assert_eq!(dto.tile_count, u16::MAX);
}

#[test]
fn snapshot_contains_initial_tiles_then_clears_dirty_state() {
    let (tiles, version) = chunk_tiles(&[(3, TileKind::Water), (9, TileKind::Road)]);
    let snapshot = build_chunk_snapshot_from_parts("abutopia", ChunkCoord { x: 1, y: 2 }, &tiles, version, ChunkActivity::Active);
    assert_eq!(snapshot.tiles.len(), 2);
    assert_eq!(snapshot.tiles[0].local_index, 3);
    assert_eq!(snapshot.tiles[1].local_index, 9);
    assert_eq!(snapshot.tile_count, 1024);
    assert_eq!(snapshot.world_id, "abutopia");
}

#[test]
fn build_chunk_snapshot_emits_all_non_default_tiles_after_clear_dirty() {
    let (tiles, version) = chunk_tiles(&[(0, TileKind::Road), (17, TileKind::Water), (42, TileKind::BuildingFootprint)]);
    let snapshot = build_chunk_snapshot_from_parts("abutopia", ChunkCoord { x: 4, y: 4 }, &tiles, version, ChunkActivity::Active);
    let indices: Vec<u16> = snapshot.tiles.iter().map(|t| t.local_index).collect();
    assert_eq!(indices, vec![0, 17, 42], "snapshot must include all non-default tiles, not only currently-dirty ones");
    assert_eq!(snapshot.chunk_version, 3);
    assert_eq!(snapshot.tiles[2].kind, TileKind::BuildingFootprint);
    assert_eq!(snapshot.tiles[2].version, 3);
}

#[test]
fn snapshot_store_reports_count_and_sorted_coords() {
    let mut store = InMemoryChunkSnapshotStore::default();
    let compatibility = SnapshotCompatibility::new("abutopia", 1);
    let (east_tiles, east_version) = chunk_tiles(&[(0, TileKind::Water)]);
    let (visible_tiles, visible_version) = chunk_tiles(&[(0, TileKind::Road)]);
    store.write_snapshot(
        build_chunk_snapshot_from_parts("abutopia", ChunkCoord { x: 5, y: 4 }, &east_tiles, east_version, ChunkActivity::Warm),
        &compatibility,
    );
    store.write_snapshot(
        build_chunk_snapshot_from_parts("abutopia", ChunkCoord { x: 4, y: 4 }, &visible_tiles, visible_version, ChunkActivity::Active),
        &compatibility,
    );
    assert_eq!(store.snapshot_count(), 2);
    assert_eq!(store.snapshot_coords(), vec![ChunkCoord { x: 4, y: 4 }, ChunkCoord { x: 5, y: 4 }]);
}

#[test]
fn chunk_snapshot_store_writes_and_reads_snapshot() {
    let mut store = InMemoryChunkSnapshotStore::default();
    let (tiles, version) = chunk_tiles(&[(0, TileKind::Road)]);
    let snapshot = build_chunk_snapshot_from_parts("abutopia", ChunkCoord { x: 4, y: 4 }, &tiles, version, ChunkActivity::Active);
    let compatibility = SnapshotCompatibility::new("abutopia", 1);
    store.write_snapshot(snapshot.clone(), &compatibility);
    let stored = store.read_snapshot(ChunkCoord { x: 4, y: 4 }, &compatibility).expect("snapshot exists");
    assert_eq!(*stored, snapshot);
}

#[test]
fn chunk_snapshot_store_filters_by_base_world_metadata() {
    let mut store = InMemoryChunkSnapshotStore::default();
    let (tiles, version) = chunk_tiles(&[(0, TileKind::Road)]);
    let snapshot = build_chunk_snapshot_from_parts("abutopia", ChunkCoord { x: 4, y: 4 }, &tiles, version, ChunkActivity::Active);
    let current = SnapshotCompatibility::new("abutopia", 1);
    let stale = SnapshotCompatibility::new("abutopia", 0);
    store.write_snapshot(snapshot, &stale);
    assert!(
        store.read_snapshot(ChunkCoord { x: 4, y: 4 }, &current).is_none(),
        "chunk snapshots from another base-world schema must not hydrate current chunks"
    );
}

#[test]
fn chunk_store_write_replaces_same_key() {
    let mut store = InMemoryChunkSnapshotStore::default();
    let compatibility = SnapshotCompatibility::new("abutopia", 1);
    let (a, va) = chunk_tiles(&[(0, TileKind::Road)]);
    let (b, vb) = chunk_tiles(&[(1, TileKind::Water), (2, TileKind::Water)]);
    store.write_snapshot(build_chunk_snapshot_from_parts("w", ChunkCoord { x: 0, y: 0 }, &a, va, ChunkActivity::Active), &compatibility);
    store.write_snapshot(build_chunk_snapshot_from_parts("w", ChunkCoord { x: 0, y: 0 }, &b, vb, ChunkActivity::Warm), &compatibility);
    assert_eq!(store.snapshot_count(), 1);
    let stored = store.read_snapshot(ChunkCoord { x: 0, y: 0 }, &compatibility).unwrap();
    assert_eq!(stored.chunk_version, 2);
    assert_eq!(stored.chunk_state, ChunkActivity::Warm);
}

#[test]
fn mobility_snapshot_store_writes_and_reads() {
    let mut store: InMemoryMobilitySnapshotStore<Vec<String>> = InMemoryMobilitySnapshotStore::default();
    let snap = vec!["agent:walk:0".to_string(), "vehicle:car:0:0".to_string()];
    let compatibility = SnapshotCompatibility::new("abutopia", 1);
    MobilitySnapshotStore::write(&mut store, "abutopia", 42, &snap, &compatibility).unwrap();
    let (tick, restored) = MobilitySnapshotStore::read(&store, "abutopia", &compatibility).unwrap().expect("snapshot exists");
    assert_eq!(tick, 42);
    assert_eq!(restored, snap);
}

#[test]
fn mobility_snapshot_store_filters_by_base_world_metadata() {
    let mut store: InMemoryMobilitySnapshotStore<Vec<String>> = InMemoryMobilitySnapshotStore::default();
    let snap = vec!["agent:walk:0".to_string()];
    let current = SnapshotCompatibility::new("abutopia", 1);
    let stale = SnapshotCompatibility::new("legacy-world", 1);
    MobilitySnapshotStore::write(&mut store, "abutopia", 42, &snap, &stale).unwrap();
    assert!(
        MobilitySnapshotStore::read(&store, "abutopia", &current).unwrap().is_none(),
        "snapshots without current base-world metadata must be invisible to hydration"
    );
}

#[test]
fn mobility_snapshot_store_read_returns_none_for_unknown_world() {
    let store: InMemoryMobilitySnapshotStore<Vec<String>> = InMemoryMobilitySnapshotStore::default();
    let result = MobilitySnapshotStore::read(&store, "missing-world", &SnapshotCompatibility::new("abutopia", 1)).unwrap();
    assert!(result.is_none());
}

#[test]
fn in_memory_economy_store_round_trips() {
    let mut store: InMemoryEconomySnapshotStore<(u64, Vec<u32>)> = InMemoryEconomySnapshotStore::default();
    let compat = SnapshotCompatibility::new("abutopia", 1);
    let snap = (99u64, Vec::new());
    store.write("w1", 7, &snap, &compat).unwrap();
    let got = store.read("w1", &compat).unwrap();
    assert_eq!(got, Some((7, snap.clone())));
    let other = SnapshotCompatibility::new("abutopia", 2);
    assert_eq!(store.read("w1", &other).unwrap(), None);
}

#[test]
fn store_errors_carry_their_message() {
    assert_eq!(ChunkSnapshotStoreError::unavailable("db down").message(), "db down");
    assert_eq!(MobilitySnapshotStoreError::unavailable("no pool").message(), "no pool");
    assert_eq!(EconomySnapshotStoreError::unavailable("timeout").message(), "timeout");
    assert_eq!(ChunkSnapshotStoreError::unavailable("x"), ChunkSnapshotStoreError::unavailable("x"));
}

#[test]
fn compatibility_metadata_compares_both_fields() {
    let a = SnapshotCompatibility::new("abutopia", 1);
    assert!(a.same_as(&SnapshotCompatibility::new("abutopia", 1)));
    assert!(!a.same_as(&SnapshotCompatibility::new("abutopia", 2)));
    assert!(!a.same_as(&SnapshotCompatibility::new("other", 1)));
    assert!(a.copy_metadata().same_as(&a));
}

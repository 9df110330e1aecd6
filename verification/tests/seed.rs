use sim_core::persistence::TileKind;
use sim_core::records::{PlanStage, SeedDensity, SeedError};
use sim_core::seed::{
    bundle_cars, bundle_pedestrians, grass_candidates_near, grass_tile_walks, is_walkable_grass,
    network_cars, network_pedestrians, seeded_walks_from_base_world, seeded_walks_from_network,
    sidewalk_grass_connectors, BaseWorld, CarSpawnGroup, CityNetwork, PedestrianSpawnGroup,
    TileGrid, WorldTiles,
};

type Point = (f32, f32);

fn network(corridors: Vec<Vec<Point>>) -> CityNetwork<Point> {
    CityNetwork {
        version: 1,
        world_id: "test".into(),
        chunk_size: 32,
        world_tiles: WorldTiles { width: 16, height: 8 },
        arterial_paths: vec![],
        pedestrian_corridors: corridors,
    }
}

/// Tiles of the walkability fixture: 4 x 3, water at (1, 0), a road at
/// (0, 1) and a building at (1, 1); everything else grass.
fn walkability_tiles() -> TileGrid<Point> {
    let (w, h) = (4u32, 3u32);
    let mut kinds = Vec::new();
    let mut centers = Vec::new();
    for y in 0..h {
        for x in 0..w {
            let kind = match (x, y) {
                (1, 0) => TileKind::Water,
                (0, 1) => TileKind::Road,
                (1, 1) => TileKind::BuildingFootprint,
                _ => TileKind::Grass,
            };
            kinds.push(kind);
            centers.push((x as f32 + 0.5, y as f32 + 0.5));
        }
    }
    TileGrid { width: w, height: h, kinds, centers }
}

fn walkability_world() -> BaseWorld<Point> {
    let mut net = network(vec![vec![(0.25, 2.0), (1.25, 2.0)]]);
    net.world_tiles = WorldTiles { width: 4, height: 3 };
    BaseWorld { network: net, tiles: walkability_tiles() }
}

#[test]
fn seeded_walks_from_network_preserve_fractional_sidewalk_geometry() {
    let network = network(vec![
        vec![(2.0, 2.49), (13.0, 2.49)],
        vec![(2.0, 3.51), (13.0, 3.51)],
    ]);

    let walks = seeded_walks_from_network(&network);

    assert_eq!(walks.len(), 2);
    assert_eq!(walks[0].polyline, vec![(2.0, 2.49), (13.0, 2.49)]);
    assert_eq!(walks[1].polyline, vec![(2.0, 3.51), (13.0, 3.51)]);
}

#[test]
fn seeded_walks_from_base_world_adds_grass_footways_and_keeps_sidewalks() {
    let world = walkability_world();
    // The grass centres nearest each end of the corridor, as found among
    // `grass_candidates_near` within two tiles.
    let connectors = vec![(Some((0.5, 2.5)), Some((1.5, 2.5)))];

    let walks = seeded_walks_from_base_world(&world, &connectors);

    assert!(
        walks.iter().any(|walk| walk.legacy_link_id == "link:walk:corridor:0"),
        "authored sidewalk footway remains present"
    );
    assert!(
        walks.iter().any(|walk| walk.legacy_link_id.starts_with("link:walk:grass:")),
        "grass footways are added from walkable grass tiles"
    );
}

#[test]
fn seeded_walks_from_base_world_excludes_roads_buildings_and_water_from_grass_links() {
    let world = walkability_world();
    let connectors = vec![(None, None)];
    let grass_walks: Vec<_> = seeded_walks_from_base_world(&world, &connectors)
        .into_iter()
        .filter(|walk| walk.legacy_link_id.starts_with("link:walk:grass:"))
        .collect();
    assert!(!grass_walks.is_empty(), "fixture should emit grass walks");
    for walk in grass_walks {
        for (x, y) in walk.polyline {
            assert_ne!((x, y), (0.5, 1.5), "road tile center must not be walkable");
            assert_ne!((x, y), (1.5, 1.5), "building tile center must not be walkable");
            assert_ne!((x, y), (1.5, 0.5), "water tile center must not be walkable");
        }
    }
}

#[test]
fn seeded_walks_from_base_world_keeps_grass_links_inside_world_bounds() {
    let world = walkability_world();
    let connectors = vec![(None, None)];
    let grass_walks: Vec<_> = seeded_walks_from_base_world(&world, &connectors)
        .into_iter()
        .filter(|walk| walk.legacy_link_id.starts_with("link:walk:grass:"))
        .collect();
    assert!(!grass_walks.is_empty(), "fixture should emit grass walks");
    for walk in grass_walks {
        for (x, y) in walk.polyline {
            assert!(x >= 0.0 && x < 4.0);
            assert!(y >= 0.0 && y < 3.0);
        }
    }
}

#[test]
fn corridors_with_fewer_than_two_points_get_no_walk_but_keep_their_index() {
    let network = network(vec![vec![(1.0, 1.0)], vec![(0.0, 0.0), (1.0, 0.0)], vec![]]);
    let walks = seeded_walks_from_network(&network);
    assert_eq!(walks.len(), 1);
    assert_eq!(walks[0].legacy_link_id, "link:walk:corridor:1");
}

#[test]
fn grass_walks_follow_scan_order_with_exact_ids() {
    let tiles = walkability_tiles();
    let ids: Vec<String> = grass_tile_walks(&tiles).into_iter().map(|w| w.legacy_link_id).collect();
    assert_eq!(
        ids,
        vec![
            "link:walk:grass:2:0:east".to_string(),
            "link:walk:grass:2:0:south".to_string(),
            "link:walk:grass:3:0:south".to_string(),
            "link:walk:grass:2:1:east".to_string(),
            "link:walk:grass:2:1:south".to_string(),
            "link:walk:grass:3:1:south".to_string(),
            "link:walk:grass:0:2:east".to_string(),
            "link:walk:grass:1:2:east".to_string(),
            "link:walk:grass:2:2:east".to_string(),
        ]
    );
}

#[test]
fn grass_walk_joins_the_two_tile_centres() {
    let tiles = walkability_tiles();
    let walks = grass_tile_walks(&tiles);
    assert_eq!(walks[0].polyline, vec![(2.5, 0.5), (3.5, 0.5)]);
    assert_eq!(walks[1].polyline, vec![(2.5, 0.5), (2.5, 1.5)]);
}

#[test]
fn walkability_respects_kinds_and_bounds() {
    let tiles = walkability_tiles();
    assert!(is_walkable_grass(&tiles, 0, 0));
    assert!(!is_walkable_grass(&tiles, 1, 0));
    assert!(!is_walkable_grass(&tiles, 0, 1));
    assert!(!is_walkable_grass(&tiles, 1, 1));
    assert!(!is_walkable_grass(&tiles, -1, 0));
    assert!(!is_walkable_grass(&tiles, 4, 0));
    assert!(!is_walkable_grass(&tiles, 0, 3));
}

#[test]
fn grass_candidates_cover_the_five_by_five_window_in_scan_order() {
    let tiles = walkability_tiles();
    let near = grass_candidates_near(&tiles, 0, 2);
    assert_eq!(near, vec![(0, 0), (2, 0), (2, 1), (0, 2), (1, 2), (2, 2)]);
}

#[test]
fn connectors_join_each_corridor_end_to_its_grass() {
    let corridors = vec![vec![(0.25, 2.0), (1.25, 2.0)], vec![(9.0, 9.0)]];
    let grass = vec![(Some((0.5, 2.5)), None), (Some((1.0, 1.0)), Some((2.0, 2.0)))];
    let walks = sidewalk_grass_connectors(&corridors, &grass);
    assert_eq!(walks.len(), 1);
    assert_eq!(walks[0].legacy_link_id, "link:walk:connector:corridor:0:start");
    assert_eq!(walks[0].polyline, vec![(0.25, 2.0), (0.5, 2.5)]);
}

#[test]
fn network_seeding_produces_expected_population_counts() {
    let density = SeedDensity { pedestrians_per_corridor: 6, cars_per_arterial: 4 };
    let walkers = network_pedestrians(3, density);
    let cars = network_cars(2, density);
    assert_eq!(walkers.len(), 18, "3 corridors x 6 = 18 walkers");
    assert_eq!(cars.len(), 8, "2 arterials x 4 = 8 cars");
    let mut drivers: Vec<String> = cars.iter().map(|c| c.driver_id.0.clone()).collect();
    drivers.sort();
    drivers.dedup();
    assert_eq!(drivers.len(), 8, "one driver per car");
    assert!(network_pedestrians(0, density).is_empty());
}

#[test]
fn network_walkers_go_round_robin_over_corridors() {
    let density = SeedDensity { pedestrians_per_corridor: 2, cars_per_arterial: 0 };
    let walkers = network_pedestrians(3, density);
    assert_eq!(walkers.len(), 6);
    assert_eq!(walkers[4].agent_id.0, "agent:walk:4");
    assert_eq!(walkers[4].link_id, "link:walk:corridor:1");
    assert_eq!(walkers[4].plan, vec![PlanStage::Activity { activity_id: "activity:wander:1".into() }]);
    assert!(!walkers[4].cyclic);
    assert_eq!((walkers[4].index, walkers[4].count), (4, 2));
}

#[test]
fn network_cars_each_carry_their_driver() {
    let density = SeedDensity { pedestrians_per_corridor: 0, cars_per_arterial: 2 };
    let cars = network_cars(2, density);
    assert_eq!(cars.len(), 4);
    assert_eq!(cars[3].vehicle_id.0, "vehicle:car:1:1");
    assert_eq!(cars[3].route_id, "route:arterial:1");
    assert_eq!(cars[3].driver_id.0, "agent:driver:3");
    assert_eq!(cars[3].driver_activity_id, "activity:drive:1");
    assert_eq!((cars[3].index, cars[3].count), (1, 2));
    assert_eq!(SeedDensity::default(), SeedDensity { pedestrians_per_corridor: 6, cars_per_arterial: 4 });
}

#[test]
fn bundle_pedestrian_seeds_walk_their_named_corridor() {
    let corridors = vec!["corridor:south".to_string(), "corridor:north".to_string()];
    let groups = vec![PedestrianSpawnGroup { id: "ped:north".into(), corridor_id: "corridor:north".into(), agents_per_corridor: 1 }];
    let seeds = bundle_pedestrians(&corridors, &groups).expect("corridor exists");
    assert_eq!(seeds.len(), 1);
    assert_eq!(seeds[0].agent_id.0, "agent:walk:0");
    assert_eq!(seeds[0].link_id, "link:walk:corridor:1");
    assert!(seeds[0].cyclic);
    assert_eq!(
        seeds[0].plan,
        vec![
            PlanStage::WalkToActivity { link_id: "link:walk:corridor:1".into(), activity_id: "activity:home".into() },
            PlanStage::WalkToActivity { link_id: "link:walk:corridor:1".into(), activity_id: "activity:destination".into() },
        ]
    );
}

#[test]
fn bundle_groups_naming_missing_paths_are_errors() {
    let groups = vec![PedestrianSpawnGroup { id: "g1".into(), corridor_id: "nowhere".into(), agents_per_corridor: 3 }];
    let err = bundle_pedestrians(&vec!["c".to_string()], &groups).unwrap_err();
    assert_eq!(err, SeedError::MissingPedestrianCorridor { group_id: "g1".into(), corridor_id: "nowhere".into() });
    assert_eq!(err.message(), "base world pedestrian group g1 references missing corridor nowhere");
    let cars = vec![CarSpawnGroup { id: "g2".into(), arterial_id: "a9".into(), cars_per_arterial: 1 }];
    let err = bundle_cars(&vec!["a0".to_string()], &cars).unwrap_err();
    assert_eq!(err.message(), "base world car group g2 references missing arterial path a9");
    let ok = bundle_cars(&vec!["a0".to_string(), "a9".to_string()], &cars).unwrap();
    assert_eq!(ok[0].vehicle_id.0, "vehicle:car:1:0");
    assert_eq!(ok[0].driver_id.0, "agent:driver:0");
}

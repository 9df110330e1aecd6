use vstd::prelude::*;

pub mod assoc;
pub mod bookkeeping;
pub mod chunks;
pub mod deltas;
pub mod graph;
pub mod ids;
pub mod link_cache;
pub mod lod;
pub mod market;
pub mod persistence;
pub mod plan;
pub mod plugin;
pub mod population;
pub mod records;
pub mod restore;
pub mod road_vehicles;
pub mod routing;
pub mod seed;
pub mod snapshot_graph;
pub mod sorting;
pub mod text;
pub mod transit;
pub mod vehicles;
pub mod wander;

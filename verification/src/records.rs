//! Plain records of the mobility simulation: plan stages, vehicle kinds,
//! market bindings and persisted routes.
use vstd::prelude::*;

use crate::text::append_text;

verus! {

/// Class of a vehicle.
#[derive(Debug, Clone, Copy, PartialEq, Eq, Hash, Structural)]
pub enum VehicleKind {
    Car,
}

/// One stage of an agent's activity plan.
#[derive(Debug, Clone, PartialEq, Eq)]
pub enum PlanStage {
    WalkToStop { link_id: String, stop_id: String },
    RideToStop { route_id: String, stop_id: String },
    WalkToActivity { link_id: String, activity_id: String },
    Activity { activity_id: String },
}

impl PlanStage {
    /// A copy of this stage.
    pub fn copy_stage(&self) -> (r: PlanStage)
        ensures
            r == *self,
    {
        match self {
            PlanStage::WalkToStop { link_id, stop_id } => PlanStage::WalkToStop { link_id: link_id.clone(), stop_id: stop_id.clone() },
            PlanStage::RideToStop { route_id, stop_id } => PlanStage::RideToStop { route_id: route_id.clone(), stop_id: stop_id.clone() },
            PlanStage::WalkToActivity { link_id, activity_id } => PlanStage::WalkToActivity { link_id: link_id.clone(), activity_id: activity_id.clone() },
            PlanStage::Activity { activity_id } => PlanStage::Activity { activity_id: activity_id.clone() },
        }
    }
}

/// The two markets a citizen is bound to: where it shops and where it works.
#[derive(Debug, Clone, Copy, PartialEq, Eq, Structural)]
pub struct MarketBinding {
    pub home_market: u32,
    pub work_market: u32,
}

/// A persisted legacy route: its id and the ids of its links in order.
#[derive(Debug, Clone, PartialEq, Eq)]
pub struct PersistedRoute {
    pub id: String,
    pub links: Vec<String>,
}

/// Identifier of a road vehicle of the road-vehicle layer.
#[derive(Debug, Clone, PartialEq, Eq, Hash, PartialOrd, Ord)]
pub struct RoadVehicleId(pub String);

/// Road vehicles that moved in a tick, by id.
#[derive(Debug, Clone, Default, PartialEq)]
pub struct RoadVehicleDelta {
    pub changed: Vec<RoadVehicleId>,
}

/// How densely a network is populated when seeding.
#[derive(Debug, Clone, Copy, PartialEq, Eq, Structural)]
pub struct SeedDensity {
    pub pedestrians_per_corridor: u32,
    pub cars_per_arterial: u32,
}

impl Default for SeedDensity {
    fn default() -> (r: Self)
        ensures
            r.pedestrians_per_corridor == 6,
            r.cars_per_arterial == 4,
    {
        SeedDensity { pedestrians_per_corridor: 6, cars_per_arterial: 4 }
    }
}

/// Why seeding from a base world failed.
#[derive(Debug, Clone, PartialEq, Eq)]
pub enum SeedError {
    /// A pedestrian spawn group names a corridor that does not exist.
    MissingPedestrianCorridor { group_id: String, corridor_id: String },
    /// A car spawn group names an arterial path that does not exist.
    MissingArterialPath { group_id: String, arterial_id: String },
}

impl SeedError {
    /// The error's message.
    pub fn message(&self) -> (r: String)
        ensures
            r@ == (match *self {
                SeedError::MissingPedestrianCorridor { group_id, corridor_id } =>
                    "base world pedestrian group "@ + group_id@ + " references missing corridor "@ + corridor_id@,
                SeedError::MissingArterialPath { group_id, arterial_id } =>
                    "base world car group "@ + group_id@ + " references missing arterial path "@ + arterial_id@,
            }),
    {
        match self {
            SeedError::MissingPedestrianCorridor { group_id, corridor_id } => {
                let mut s = String::from_str("base world pedestrian group ");
                append_text(&mut s, group_id.as_str());
                append_text(&mut s, " references missing corridor ");
                append_text(&mut s, corridor_id.as_str());
                s
            },
            SeedError::MissingArterialPath { group_id, arterial_id } => {
                let mut s = String::from_str("base world car group ");
                append_text(&mut s, group_id.as_str());
                append_text(&mut s, " references missing arterial path ");
                append_text(&mut s, arterial_id.as_str());
                s
            },
        }
    }
}

} // verus!

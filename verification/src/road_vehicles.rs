//! The road-vehicle layer's tick report: which vehicles moved, in a stable
//! order. Positions along the vehicles' tile paths stay with the caller.

use vstd::prelude::*;

use crate::records::{RoadVehicleDelta, RoadVehicleId};
use crate::sorting::{Keyed, ids_distinct, ids_sorted, sort_by_key};

verus! {

impl Keyed for RoadVehicleId {
    open spec fn sort_key(&self) -> Seq<char> {
        self.0@
    }

    fn key_str(&self) -> (r: &str) {
        self.0.as_str()
    }
}

/// Whether a vehicle with a path of `path_len` tiles moves on a tick: it
/// needs at least two tiles to move between.
pub open spec fn moves(path_len: usize) -> bool {
    path_len >= 2
}

/// The vehicles that moved on a tick, given each vehicle's id and the
/// length of its path: those that can move, sorted by id.
pub fn road_vehicle_delta(vehicles: &Vec<(RoadVehicleId, usize)>) -> (r: RoadVehicleDelta)
    requires
        forall|i: int, j: int| 0 <= i < j < vehicles@.len() ==> #[trigger] vehicles@[i].0.0@ != #[trigger] vehicles@[j].0.0@,
    ensures
        ids_sorted(r.changed@),
        forall|y: RoadVehicleId| r.changed@.contains(y) <==>
            exists|i: int| 0 <= i < vehicles@.len() && #[trigger] vehicles@[i].0 == y && moves(vehicles@[i].1),
{
    let mut moved: Vec<RoadVehicleId> = Vec::new();
    let ghost mut from: Seq<int> = Seq::empty();
    let n = vehicles.len();
    let mut i: usize = 0;
    while i < n
        invariant
            n == vehicles@.len(),
            i <= n,
            forall|p: int, q: int| 0 <= p < q < vehicles@.len() ==> #[trigger] vehicles@[p].0.0@ != #[trigger] vehicles@[q].0.0@,
            from.len() == moved@.len(),
            forall|k: int| 0 <= k < moved@.len() ==> {
                &&& 0 <= #[trigger] from[k] < i
                &&& vehicles@[from[k]].0 == moved@[k]
                &&& moves(vehicles@[from[k]].1)
            },
            forall|j: int| 0 <= j < i && moves(#[trigger] vehicles@[j].1) ==> moved@.contains(vehicles@[j].0),
            ids_distinct(moved@),
        decreases n - i,
    {
        let ghost before = moved@;
        let ghost before_from = from;
        if vehicles[i].1 >= 2 {
            let id = RoadVehicleId(vehicles[i].0.0.clone());
            proof {
                assert forall|k: int| 0 <= k < before.len() implies (#[trigger] before[k]).sort_key() != id.sort_key() by {
                    let j = before_from[k];
                    assert(vehicles@[j].0 == before[k]);
                    assert(vehicles@[j].0.0@ != vehicles@[i as int].0.0@);
                }
            }
            moved.push(id);
            proof {
                from = before_from.push(i as int);
                assert(moved@ == before.push(id));
                assert forall|k: int| 0 <= k < moved@.len() implies {
                    &&& 0 <= #[trigger] from[k] < i + 1
                    &&& vehicles@[from[k]].0 == moved@[k]
                    &&& moves(vehicles@[from[k]].1)
                } by {
                    if k < before.len() {
                        assert(from[k] == before_from[k]);
                        assert(moved@[k] == before[k]);
                    }
                }
                assert forall|j: int| 0 <= j < i + 1 && moves(#[trigger] vehicles@[j].1) implies moved@.contains(vehicles@[j].0) by {
                    if j < i {
                        assert(before.contains(vehicles@[j].0));
                        let k = choose|k: int| 0 <= k < before.len() && before[k] == vehicles@[j].0;
                        assert(moved@[k] == vehicles@[j].0);
                    } else {
                        assert(moved@[before.len() as int] == vehicles@[j].0);
                    }
                }
            }
        }
        i = i + 1;
    }
    let changed = sort_by_key(moved);
    proof {
        assert forall|y: RoadVehicleId| changed@.contains(y) <==>
            exists|i: int| 0 <= i < vehicles@.len() && #[trigger] vehicles@[i].0 == y && moves(vehicles@[i].1) by {
            if changed@.contains(y) {
                assert(moved@.contains(y));
                let k = choose|k: int| 0 <= k < moved@.len() && moved@[k] == y;
                assert(vehicles@[from[k]].0 == y);
            }
            if exists|i: int| 0 <= i < vehicles@.len() && #[trigger] vehicles@[i].0 == y && moves(vehicles@[i].1) {
                let j = choose|j: int| 0 <= j < vehicles@.len() && #[trigger] vehicles@[j].0 == y && moves(vehicles@[j].1);
                assert(moved@.contains(vehicles@[j].0));
            }
        }
    }
    RoadVehicleDelta { changed }
}

} // verus!

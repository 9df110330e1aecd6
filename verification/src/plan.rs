//! Activity plans and the state changes of an agent that reaches the end of a
//! walk, boards or leaves a vehicle.
use vstd::prelude::*;

use crate::assoc::AssocList;
use crate::graph::{RoutingGraph, first_legacy_node};
use crate::ids::{AgentId, NodeId, VehicleId};
use crate::records::PlanStage;

verus! {

/// An agent's plan and the index of the stage it is working on.
#[derive(Debug, Clone, PartialEq, Eq)]
pub struct WalkPlan {
    pub stages: Vec<PlanStage>,
    pub cursor: usize,
    /// Cyclic plans start over after their last stage.
    pub cyclic: bool,
}

/// Where along its link a walking agent is: at the start (progress 0 or
/// less), at the end (progress 1 or more), or in between.
#[derive(Debug, Clone, Copy, PartialEq, Eq, Structural)]
pub enum WalkPoint {
    Start,
    Along,
    End,
}

/// The state of an agent as the plan logic sees it.
#[derive(Debug, Clone, PartialEq, Eq)]
pub enum AgentState {
    AtActivity { activity_id: String },
    Walking { link_id: String, at: WalkPoint },
    WaitingAtStop { stop_id: String },
    Boarding { vehicle_id: VehicleId, stop_id: String },
    InVehicle { vehicle_id: VehicleId, seat_index: u16 },
    Alighting { vehicle_id: VehicleId, stop_id: String },
}

/// The cursor after one step: the next stage, wrapping to the first for a
/// cyclic non-empty plan.
pub open spec fn advanced_cursor(stages_len: nat, cursor: nat, cyclic: bool) -> nat {
    if cyclic && stages_len > 0 && cursor + 1 >= stages_len { 0 } else { cursor + 1 }
}

/// Moves the plan to its next stage; cyclic non-empty plans wrap to the start.
pub fn advance_cursor(plan: &mut WalkPlan)
    requires
        old(plan).cursor < usize::MAX,
    ensures
        final(plan).cursor == advanced_cursor(old(plan).stages@.len(), old(plan).cursor as nat, old(plan).cyclic),
        final(plan).stages == old(plan).stages,
        final(plan).cyclic == old(plan).cyclic,
{
    plan.cursor = plan.cursor + 1;
    if plan.cyclic && plan.stages.len() > 0 && plan.cursor >= plan.stages.len() {
        plan.cursor = 0;
    }
}

/// A cyclic non-empty plan keeps its cursor on a stage however often it advances.
pub proof fn lemma_cyclic_cursor_stays_in_plan(stages_len: nat, cursor: nat)
    requires
        stages_len > 0,
        cursor < stages_len,
    ensures
        advanced_cursor(stages_len, cursor, true) < stages_len,
{
}

/// The agents waiting at each stop node, in arrival order.
#[derive(Debug)]
pub struct WaitingAgents {
    queues: AssocList<NodeId, Vec<AgentId>>,
}

/// The queue `q` after `agent` arrives: unchanged if already in it, else
/// with `agent` at the back.
pub open spec fn enqueue_once(q: Seq<Seq<char>>, agent: Seq<char>) -> Seq<Seq<char>> {
    if q.contains(agent) { q } else { q.push(agent) }
}

/// The ids in a queue, as character sequences.
pub open spec fn queue_view(v: Seq<AgentId>) -> Seq<Seq<char>> {
    v.map_values(|a: AgentId| a@)
}

impl WaitingAgents {
    #[verifier::type_invariant]
    spec fn well_formed(&self) -> bool {
        self.queues.well_formed()
    }

    /// The queue at every node that has one.
    pub closed spec fn queues(&self) -> Map<u32, Seq<Seq<char>>> {
        Map::new(|n: u32| self.queues.map().contains_key(n), |n: u32| queue_view(self.queues.map()[n]@))
    }

    /// The queue at node `n` (empty if none).
    pub open spec fn queue_at(&self, n: NodeId) -> Seq<Seq<char>> {
        if self.queues().contains_key(n.0) { self.queues()[n.0] } else { Seq::empty() }
    }

    /// Nobody waits anywhere.
    pub fn new() -> (r: Self)
        ensures
            r.queues() =~= Map::empty(),
    {
        WaitingAgents { queues: AssocList::new() }
    }

    /// Whether `agent` is in the queue at `node`.
    pub fn is_waiting(&self, node: NodeId, agent: &AgentId) -> (r: bool)
        ensures
            r == self.queue_at(node).contains(agent@),
    {
        proof { use_type_invariant(self); }
        match self.queues.get(&node) {
            Some(q) => {
                assert(self.queues().contains_key(node.0));
                assert(self.queue_at(node) == queue_view(q@));
                let n = q.len();
                let mut i: usize = 0;
                while i < n
                    invariant
                        n == q@.len(),
                        i <= n,
                        self.queue_at(node) == queue_view(q@),
                        forall|j: int| 0 <= j < i ==> q@[j]@ != agent@,
                    decreases n - i,
                {
                    if q[i].same_as(agent) {
                        assert(queue_view(q@)[i as int] == agent@);
                        assert(queue_view(q@).contains(agent@));
                        assert(self.queue_at(node).contains(agent@));
                        return true;
                    }
                    i = i + 1;
                }
                proof {
                    if queue_view(q@).contains(agent@) {
                        let j = choose|j: int| 0 <= j < queue_view(q@).len() && queue_view(q@)[j] == agent@;
                        assert(q@[j]@ == agent@);
                    }
                }
                false
            },
            None => false,
        }
    }

    /// Puts `agent` at the back of the queue at `node` unless it already waits there.
    pub fn enqueue_once(&mut self, node: NodeId, agent: &AgentId)
        ensures
            final(self).queues() =~= old(self).queues().insert(node.0, enqueue_once(old(self).queue_at(node), agent@)),
    {
        proof { use_type_invariant(&*self); }
        if self.is_waiting(node, agent) {
            proof {
                if !self.queues().contains_key(node.0) {
                    assert(self.queue_at(node) =~= Seq::<Seq<char>>::empty());
                }
                assert(self.queues().insert(node.0, self.queue_at(node)) =~= self.queues());
            }
            return;
        }
        let mut table = AssocList::new();
        std::mem::swap(&mut table, &mut self.queues);
        let mut q = match table.remove(&node) {
            Some(q) => q,
            None => Vec::new(),
        };
        let ghost before = queue_view(q@);
        assert(before == old(self).queue_at(node));
        q.push(agent.copy_id());
        assert(queue_view(q@) =~= before.push(agent@));
        table.insert(node, q);
        self.queues = table;
        assert(self.queues() =~= old(self).queues().insert(node.0, enqueue_once(old(self).queue_at(node), agent@)));
    }

    /// Puts `agent` at the back of the queue at `node`, even if it already
    /// waits there.
    pub fn enqueue(&mut self, node: NodeId, agent: &AgentId)
        ensures
            final(self).queues() =~= old(self).queues().insert(node.0, old(self).queue_at(node).push(agent@)),
    {
        proof { use_type_invariant(&*self); }
        let mut table = AssocList::new();
        std::mem::swap(&mut table, &mut self.queues);
        let mut q = match table.remove(&node) {
            Some(q) => q,
            None => Vec::new(),
        };
        let ghost before = queue_view(q@);
        assert(before == old(self).queue_at(node));
        q.push(agent.copy_id());
        assert(queue_view(q@) =~= before.push(agent@));
        table.insert(node, q);
        self.queues = table;
    }

    /// The agent at the front of the queue at `node`.
    pub fn front(&self, node: NodeId) -> (r: Option<AgentId>)
        ensures
            match r {
                Some(a) => self.queue_at(node).len() > 0 && a@ == self.queue_at(node)[0],
                None => self.queue_at(node).len() == 0,
            },
    {
        proof { use_type_invariant(self); }
        match self.queues.get(&node) {
            Some(q) => if q.len() > 0 { Some(q[0].copy_id()) } else { None },
            None => None,
        }
    }

    /// Removes the agent at the front of the queue at `node`.
    pub fn dequeue(&mut self, node: NodeId) -> (r: Option<AgentId>)
        ensures
            match r {
                Some(a) => old(self).queue_at(node).len() > 0 && a@ == old(self).queue_at(node)[0]
                    && final(self).queues() =~= old(self).queues().insert(node.0, old(self).queue_at(node).drop_first()),
                None => old(self).queue_at(node).len() == 0 && final(self).queues() == old(self).queues(),
            },
    {
        proof { use_type_invariant(&*self); }
        match self.queues.find(&node) {
            None => None,
            Some(_) => {
                let mut table = AssocList::new();
                std::mem::swap(&mut table, &mut self.queues);
                let mut q = match table.remove(&node) {
                    Some(q) => q,
                    None => Vec::new(),
                };
                if q.len() == 0 {
                    table.insert(node, q);
                    self.queues = table;
                    assert(self.queues() =~= old(self).queues());
                    return None;
                }
                let ghost before = queue_view(q@);
                let a = q.remove(0);
                assert(queue_view(q@) =~= before.drop_first());
                table.insert(node, q);
                self.queues = table;
                Some(a)
            },
        }
    }
}

/// What reaching the end of the current walk does to an agent with plan
/// `stages`/`cursor`/`cyclic` that is walking on `arrival_link`: the stage's
/// new state and cursor, or `None` when the stage is not a walk.
pub open spec fn finish_walk_stage(
    stage: PlanStage,
    stages_len: nat,
    cursor: nat,
    cyclic: bool,
    arrival_link: Seq<char>,
) -> Option<(AgentStateSpec, nat)> {
    match stage {
        PlanStage::WalkToStop { stop_id, .. } => Some((AgentStateSpec::WaitingAtStop { stop_id: stop_id@ }, advanced_cursor(stages_len, cursor, cyclic))),
        PlanStage::WalkToActivity { activity_id, .. } => Some((
            if cyclic { AgentStateSpec::WalkingAtEnd { link_id: arrival_link } } else { AgentStateSpec::AtActivity { activity_id: activity_id@ } },
            advanced_cursor(stages_len, cursor, cyclic),
        )),
        _ => None,
    }
}

/// The states the end of a walk can lead to, by their identifiers.
pub enum AgentStateSpec {
    AtActivity { activity_id: Seq<char> },
    WalkingAtEnd { link_id: Seq<char> },
    WaitingAtStop { stop_id: Seq<char> },
}

/// Whether `s` is the state `t` describes.
pub open spec fn state_matches(s: AgentState, t: AgentStateSpec) -> bool {
    match t {
        AgentStateSpec::AtActivity { activity_id } => s matches AgentState::AtActivity { activity_id: a } && a@ == activity_id,
        AgentStateSpec::WalkingAtEnd { link_id } => s matches AgentState::Walking { link_id: l, at } && l@ == link_id && at == WalkPoint::End,
        AgentStateSpec::WaitingAtStop { stop_id } => s matches AgentState::WaitingAtStop { stop_id: st } && st@ == stop_id,
    }
}

/// Completes walk stage `stage` of `plan` for an agent that arrived at
/// `destination` over `arrival_link`: a stop stage puts it in the stop's queue
/// (once); an activity stage ends at the activity, or for a cyclic plan keeps
/// it at the end of the arrival link so it departs again. Returns whether the
/// stage was a walk stage.
pub fn complete_walk_stage_at_destination(
    agent: &AgentId,
    state: &mut AgentState,
    plan: &mut WalkPlan,
    stage: &PlanStage,
    arrival_link: &str,
    destination: NodeId,
    waiting: &mut WaitingAgents,
) -> (r: bool)
    requires
        old(plan).cursor < usize::MAX,
    ensures
        r == finish_walk_stage(*stage, old(plan).stages@.len(), old(plan).cursor as nat, old(plan).cyclic, arrival_link@) is Some,
        match finish_walk_stage(*stage, old(plan).stages@.len(), old(plan).cursor as nat, old(plan).cyclic, arrival_link@) {
            Some((t, c)) => state_matches(*final(state), t) && final(plan).cursor == c,
            None => *final(state) == *old(state) && final(plan).cursor == old(plan).cursor,
        },
        final(plan).stages == old(plan).stages,
        final(plan).cyclic == old(plan).cyclic,
        (*stage) matches PlanStage::WalkToStop { .. } ==> final(waiting).queues() =~= old(waiting).queues().insert(
            destination.0, enqueue_once(old(waiting).queue_at(destination), agent@)),
        !((*stage) matches PlanStage::WalkToStop { .. }) ==> final(waiting).queues() == old(waiting).queues(),
{
    match stage {
        PlanStage::WalkToStop { stop_id, .. } => {
            advance_cursor(plan);
            *state = AgentState::WaitingAtStop { stop_id: stop_id.clone() };
            waiting.enqueue_once(destination, agent);
            true
        },
        PlanStage::WalkToActivity { activity_id, .. } => {
            advance_cursor(plan);
            *state = if plan.cyclic {
                AgentState::Walking { link_id: String::from_str(arrival_link), at: WalkPoint::End }
            } else {
                AgentState::AtActivity { activity_id: activity_id.clone() }
            };
            true
        },
        _ => false,
    }
}

/// Handles an agent whose walk just reached the end of its link when it has
/// no active route: finishes the current plan stage if it is a walk stage (a
/// stop stage queues the agent at the stop node, if the graph knows the
/// stop). Returns whether the agent's state changed.
pub fn stop_arrival(
    agent: &AgentId,
    state: &mut AgentState,
    plan: &mut WalkPlan,
    has_active_route: bool,
    graph: &RoutingGraph,
    waiting: &mut WaitingAgents,
) -> (r: bool)
    requires
        old(plan).cursor < usize::MAX,
    ensures
        final(plan).stages == old(plan).stages,
        final(plan).cyclic == old(plan).cyclic,
        ({
            let applies = !has_active_route
                && (*old(state) matches AgentState::Walking { at, .. } && at == WalkPoint::End)
                && old(plan).cursor < old(plan).stages@.len();
            let arrival = match *old(state) { AgentState::Walking { link_id, .. } => link_id@, _ => Seq::empty() };
            let stage = old(plan).stages@[old(plan).cursor as int];
            let outcome = finish_walk_stage(stage, old(plan).stages@.len(), old(plan).cursor as nat, old(plan).cyclic, arrival);
            if applies && outcome is Some {
                let (t, c) = outcome->0;
                &&& r
                &&& state_matches(*final(state), t)
                &&& final(plan).cursor == c
                &&& (match stage {
                    PlanStage::WalkToStop { stop_id, .. } => match first_legacy_node(*graph, stop_id@) {
                        Some(i) => final(waiting).queues() =~= old(waiting).queues().insert(i as u32,
                            enqueue_once(old(waiting).queue_at(NodeId(i as u32)), agent@)),
                        None => final(waiting).queues() == old(waiting).queues(),
                    },
                    _ => final(waiting).queues() == old(waiting).queues(),
                })
            } else {
                &&& !r
                &&& *final(state) == *old(state)
                &&& final(plan).cursor == old(plan).cursor
                &&& final(waiting).queues() == old(waiting).queues()
            }
        }),
{
    if has_active_route {
        return false;
    }
    let arrival = match &*state {
        AgentState::Walking { link_id, at } => {
            if *at != WalkPoint::End {
                return false;
            }
            link_id.clone()
        },
        _ => return false,
    };
    if plan.cursor >= plan.stages.len() {
        return false;
    }
    let stage = plan.stages[plan.cursor].copy_stage();
    match &stage {
        PlanStage::WalkToStop { stop_id, .. } => {
            match graph.node_by_legacy(stop_id.as_str()) {
                Some(node) => {
                    complete_walk_stage_at_destination(agent, state, plan, &stage, arrival.as_str(), node, waiting)
                },
                None => {
                    advance_cursor(plan);
                    *state = AgentState::WaitingAtStop { stop_id: stop_id.clone() };
                    true
                },
            }
        },
        PlanStage::WalkToActivity { .. } => {
            complete_walk_stage_at_destination(agent, state, plan, &stage, arrival.as_str(), NodeId(0), waiting)
        },
        _ => false,
    }
}

/// Takes a seat for `agent` in a vehicle with `occupants` and `capacity`, if
/// one is free; the seat index is the number of earlier occupants.
pub fn board(occupants: &mut Vec<AgentId>, capacity: u16, agent: &AgentId) -> (r: Option<u16>)
    ensures
        old(occupants)@.len() < capacity ==> r == Some(old(occupants)@.len() as u16)
            && final(occupants)@.len() == old(occupants)@.len() + 1
            && final(occupants)@.subrange(0, old(occupants)@.len() as int) == old(occupants)@
            && final(occupants)@.last()@ == agent@,
        old(occupants)@.len() >= capacity ==> r is None && final(occupants)@ == old(occupants)@,
{
    if occupants.len() < capacity as usize {
        let seat = occupants.len() as u16;
        occupants.push(agent.copy_id());
        assert(occupants@.subrange(0, old(occupants)@.len() as int) =~= old(occupants)@);
        Some(seat)
    } else {
        None
    }
}

/// Removes every occurrence of `agent` from `occupants`, keeping the order of the others.
pub fn remove_occupant(occupants: &mut Vec<AgentId>, agent: &AgentId)
    ensures
        queue_view(final(occupants)@) == queue_view(old(occupants)@).filter(|a: Seq<char>| a != agent@),
{
    let ghost orig = old(occupants)@;
    let mut kept: Vec<AgentId> = Vec::new();
    let n = occupants.len();
    let mut i: usize = 0;
    while i < n
        invariant
            n == occupants@.len(),
            occupants@ == orig,
            i <= n,
            queue_view(kept@) == queue_view(orig.subrange(0, i as int)).filter(|a: Seq<char>| a != agent@),
        decreases n - i,
    {
        let ghost pre = queue_view(orig.subrange(0, i as int));
        assert(queue_view(orig.subrange(0, i + 1)) =~= pre.push(orig[i as int]@));
        proof {
            pre.lemma_filter_push(orig[i as int]@, |a: Seq<char>| a != agent@);
        }
        if !occupants[i].same_as(agent) {
            let ghost kv = queue_view(kept@);
            kept.push(occupants[i].copy_id());
            assert(queue_view(kept@) =~= kv.push(orig[i as int]@));
        }
        i = i + 1;
    }
    assert(orig.subrange(0, n as int) =~= orig);
    *occupants = kept;
}

/// The state of an agent that leaves vehicle `vehicle_id` at stop `stop_id`
/// after riding stage `cursor`: it walks the next stage's link from its
/// start, or is at the next activity (skipping that stage too), or is
/// alighting when the next stage is neither.
pub open spec fn alighting_outcome(stages: Seq<PlanStage>, cursor: nat) -> (nat, Option<PlanStage>) {
    let next = cursor + 1;
    if next < stages.len() {
        match stages[next as int] {
            PlanStage::WalkToActivity { .. } => (next, Some(stages[next as int])),
            PlanStage::Activity { .. } => (next + 1, Some(stages[next as int])),
            _ => (next, None),
        }
    } else {
        (next, None)
    }
}

/// Leaving a vehicle moves the plan past the ride: into the walk of a next
/// walk-to-activity stage (cursor one past the ride), straight into the
/// activity of a next activity stage, which is then done too (cursor two
/// past the ride), and otherwise just past the ride, with no next stage to
/// take up.
pub proof fn lemma_alighting_moves_past_ride(stages: Seq<PlanStage>, cursor: nat)
    ensures
        (cursor + 1 < stages.len() && stages[cursor + 1int] is Activity) ==> {
            &&& alighting_outcome(stages, cursor).0 == cursor + 2
            &&& alighting_outcome(stages, cursor).1 == Some(stages[cursor + 1int])
        },
        (cursor + 1 < stages.len() && stages[cursor + 1int] is WalkToActivity) ==> {
            &&& alighting_outcome(stages, cursor).0 == cursor + 1
            &&& alighting_outcome(stages, cursor).1 == Some(stages[cursor + 1int])
        },
        !(cursor + 1 < stages.len() && (stages[cursor + 1int] is Activity || stages[cursor + 1int] is WalkToActivity)) ==> {
            &&& alighting_outcome(stages, cursor).0 == cursor + 1
            &&& alighting_outcome(stages, cursor).1 is None
        },
{
}

/// Moves an agent out of vehicle `vehicle_id` at stop `stop_id` and advances
/// its plan past the ride (see `alighting_outcome`).
pub fn alight(plan: &mut WalkPlan, vehicle_id: &VehicleId, stop_id: &str) -> (r: AgentState)
    requires
        old(plan).cursor < usize::MAX,
    ensures
        final(plan).stages == old(plan).stages,
        final(plan).cyclic == old(plan).cyclic,
        final(plan).cursor == alighting_outcome(old(plan).stages@, old(plan).cursor as nat).0,
        match alighting_outcome(old(plan).stages@, old(plan).cursor as nat).1 {
            Some(PlanStage::WalkToActivity { link_id, .. }) => r matches AgentState::Walking { link_id: l, at } && l@ == link_id@ && at == WalkPoint::Start,
            Some(PlanStage::Activity { activity_id }) => r matches AgentState::AtActivity { activity_id: a } && a@ == activity_id@,
            _ => r matches AgentState::Alighting { vehicle_id: v, stop_id: s } && v@ == vehicle_id@ && s@ == stop_id@,
        },
{
    plan.cursor = plan.cursor + 1;
    if plan.cursor < plan.stages.len() {
        match &plan.stages[plan.cursor] {
            PlanStage::WalkToActivity { link_id, .. } => {
                return AgentState::Walking { link_id: link_id.clone(), at: WalkPoint::Start };
            },
            PlanStage::Activity { activity_id } => {
                let a = activity_id.clone();
                plan.cursor = plan.cursor + 1;
                return AgentState::AtActivity { activity_id: a };
            },
            _ => {},
        }
    }
    AgentState::Alighting { vehicle_id: vehicle_id.copy_id(), stop_id: String::from_str(stop_id) }
}

/// The agent at the front of the queue at `node` boards a vehicle that
/// stands at that stop, if it has a free seat: it becomes an occupant (its
/// seat is the number of earlier occupants), leaves the queue, and is in the
/// vehicle. Returns the agent and its new state.
pub fn board_front_at_stop(
    waiting: &mut WaitingAgents,
    node: NodeId,
    occupants: &mut Vec<AgentId>,
    capacity: u16,
    vehicle_id: &VehicleId,
) -> (r: Option<(AgentId, AgentState)>)
    ensures
        ({
            let q = old(waiting).queue_at(node);
            if q.len() > 0 && old(occupants)@.len() < capacity {
                &&& r matches Some((a, st))
                &&& a@ == q[0]
                &&& st matches AgentState::InVehicle { vehicle_id: v, seat_index }
                &&& v@ == vehicle_id@
                &&& seat_index == old(occupants)@.len()
                &&& queue_view(final(occupants)@) == queue_view(old(occupants)@).push(q[0])
                &&& final(waiting).queues() =~= old(waiting).queues().insert(node.0, q.drop_first())
            } else {
                &&& r is None
                &&& final(occupants)@ == old(occupants)@
                &&& final(waiting).queues() == old(waiting).queues()
            }
        }),
{
    let agent = match waiting.front(node) {
        Some(a) => a,
        None => return None,
    };
    let seat = match board(occupants, capacity, &agent) {
        Some(seat) => seat,
        None => return None,
    };
    proof {
        assert(queue_view(occupants@) =~= queue_view(old(occupants)@).push(agent@)) by {
            assert(occupants@.subrange(0, old(occupants)@.len() as int) == old(occupants)@);
            assert forall|i: int| 0 <= i < old(occupants)@.len() implies occupants@[i] == old(occupants)@[i] by {
                assert(occupants@.subrange(0, old(occupants)@.len() as int)[i] == occupants@[i]);
            }
        }
    }
    let _ = waiting.dequeue(node);
    let state = AgentState::InVehicle { vehicle_id: vehicle_id.copy_id(), seat_index: seat };
    Some((agent, state))
}

/// The stop an agent in vehicle `vehicle` gets off at when the vehicle
/// stands at `node`: the stop of its current ride stage, if that stop is
/// `node`.
pub open spec fn alighting_stop(g: RoutingGraph, state: AgentState, stages: Seq<PlanStage>, cursor: nat, vehicle: Seq<char>, node: NodeId) -> Option<Seq<char>> {
    if cursor < stages.len() && (state matches AgentState::InVehicle { vehicle_id, .. } && vehicle_id@ == vehicle) {
        match stages[cursor as int] {
            PlanStage::RideToStop { stop_id, .. } => if first_legacy_node(g, stop_id@) == Some(node.0 as int) {
                Some(stop_id@)
            } else {
                None
            },
            _ => None,
        }
    } else {
        None
    }
}

/// An occupant of vehicle `vehicle_id` standing at stop node `node` gets
/// off when its ride ends there (see `alighting_stop`): it leaves the
/// occupants and moves on in its plan (see `alight`). Returns whether it
/// got off.
pub fn alight_at_stop(
    agent: &AgentId,
    state: &mut AgentState,
    plan: &mut WalkPlan,
    occupants: &mut Vec<AgentId>,
    vehicle_id: &VehicleId,
    node: NodeId,
    graph: &RoutingGraph,
) -> (r: bool)
    requires
        graph.well_formed(),
    ensures
        r == alighting_stop(*graph, *old(state), old(plan).stages@, old(plan).cursor as nat, vehicle_id@, node) is Some,
        final(plan).stages == old(plan).stages,
        final(plan).cyclic == old(plan).cyclic,
        r ==> ({
            let stop = alighting_stop(*graph, *old(state), old(plan).stages@, old(plan).cursor as nat, vehicle_id@, node)->0;
            let (c, next) = alighting_outcome(old(plan).stages@, old(plan).cursor as nat);
            &&& queue_view(final(occupants)@) == queue_view(old(occupants)@).filter(|a: Seq<char>| a != agent@)
            &&& final(plan).cursor == c
            &&& match next {
                Some(PlanStage::WalkToActivity { link_id, .. }) => *final(state) matches AgentState::Walking { link_id: l, at } && l@ == link_id@ && at == WalkPoint::Start,
                Some(PlanStage::Activity { activity_id }) => *final(state) matches AgentState::AtActivity { activity_id: a } && a@ == activity_id@,
                _ => *final(state) matches AgentState::Alighting { vehicle_id: v, stop_id: s } && v@ == vehicle_id@ && s@ == stop,
            }
        }),
        !r ==> *final(state) == *old(state) && final(plan).cursor == old(plan).cursor && final(occupants)@ == old(occupants)@,
        r && old(plan).cursor + 1 < old(plan).stages@.len() ==> match old(plan).stages@[old(plan).cursor + 1] {
            PlanStage::Activity { activity_id } => *final(state) matches AgentState::AtActivity { activity_id: a }
                && a@ == activity_id@ && final(plan).cursor == old(plan).cursor + 2,
            PlanStage::WalkToActivity { link_id, .. } => *final(state) matches AgentState::Walking { link_id: l, at }
                && l@ == link_id@ && at == WalkPoint::Start && final(plan).cursor == old(plan).cursor + 1,
            _ => *final(state) is Alighting && final(plan).cursor == old(plan).cursor + 1,
        },
{
    let in_vehicle = match &*state {
        AgentState::InVehicle { vehicle_id: v, .. } => v.same_as(vehicle_id),
        _ => false,
    };
    if !in_vehicle || plan.cursor >= plan.stages.len() {
        return false;
    }
    let stop_id = match &plan.stages[plan.cursor] {
        PlanStage::RideToStop { stop_id, .. } => stop_id.clone(),
        _ => return false,
    };
    proof { crate::graph::lemma_first_legacy_node_hit(*graph, stop_id@, graph.nodes@.len() as int); }
    match graph.node_by_legacy(stop_id.as_str()) {
        Some(n) => {
            if n != node {
                return false;
            }
        },
        None => return false,
    }
    remove_occupant(occupants, agent);
    *state = alight(plan, vehicle_id, stop_id.as_str());
    proof { lemma_alighting_moves_past_ride(old(plan).stages@, old(plan).cursor as nat); }
    true
}

} // verus!

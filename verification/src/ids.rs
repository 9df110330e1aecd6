//! Identifier types shared by the mobility modules.
use vstd::prelude::*;

use crate::text::{append_decimal, append_text, decimal};

verus! {

/// Stable identifier of an agent.
#[derive(Debug, Clone, PartialEq, Eq, Hash, PartialOrd, Ord)]
pub struct AgentId(pub String);

/// Stable identifier of a vehicle.
#[derive(Debug, Clone, PartialEq, Eq, Hash, PartialOrd, Ord)]
pub struct VehicleId(pub String);

impl View for AgentId {
    type V = Seq<char>;

    open spec fn view(&self) -> Seq<char> {
        self.0@
    }
}

impl View for VehicleId {
    type V = Seq<char>;

    open spec fn view(&self) -> Seq<char> {
        self.0@
    }
}

impl AgentId {
    /// A copy of this id.
    pub fn copy_id(&self) -> (r: AgentId)
        ensures
            r@ == self@,
    {
        AgentId(self.0.clone())
    }

    /// Whether two ids are the same.
    pub fn same_as(&self, other: &AgentId) -> (r: bool)
        ensures
            r == (self@ == other@),
    {
        self.0 == other.0
    }
}

/// `agent:born:<mother>:<month>`.
pub open spec fn born_id(mother: Seq<char>, month: nat) -> Seq<char> {
    seq!['a', 'g', 'e', 'n', 't', ':', 'b', 'o', 'r', 'n', ':'] + mother + seq![':'] + decimal(month)
}

/// The id of the child the agent `mother` gives birth to in month `month`.
pub fn born_agent_id(mother: &AgentId, month: u64) -> (r: AgentId)
    ensures
        r@ == born_id(mother@, month as nat),
{
    proof {
        reveal_strlit("agent:born:");
        reveal_strlit(":");
        assert("agent:born:"@ =~= seq!['a', 'g', 'e', 'n', 't', ':', 'b', 'o', 'r', 'n', ':']);
        assert(":"@ =~= seq![':']);
    }
    let mut s = String::from_str("agent:born:");
    append_text(&mut s, mother.0.as_str());
    append_text(&mut s, ":");
    append_decimal(&mut s, month);
    AgentId(s)
}

impl VehicleId {
    /// A copy of this id.
    pub fn copy_id(&self) -> (r: VehicleId)
        ensures
            r@ == self@,
    {
        VehicleId(self.0.clone())
    }

    /// Whether two ids are the same.
    pub fn same_as(&self, other: &VehicleId) -> (r: bool)
        ensures
            r == (self@ == other@),
    {
        self.0 == other.0
    }
}

/// Coordinate of a chunk in chunk space.
#[derive(Debug, Clone, Copy, PartialEq, Eq, Hash, PartialOrd, Ord, Structural)]
pub struct ChunkCoord {
    pub x: i32,
    pub y: i32,
}

/// Lexicographic order on chunk coordinates (`x` first, then `y`).
pub open spec fn coord_lt(a: ChunkCoord, b: ChunkCoord) -> bool {
    a.x < b.x || (a.x == b.x && a.y < b.y)
}

impl ChunkCoord {
    /// Whether `self` comes strictly before `other` in `(x, y)` order.
    pub fn precedes(&self, other: &ChunkCoord) -> (r: bool)
        ensures
            r == coord_lt(*self, *other),
    {
        self.x < other.x || (self.x == other.x && self.y < other.y)
    }
}

/// Node of the routing graph.
#[derive(Debug, Clone, Copy, PartialEq, Eq, Hash, PartialOrd, Ord, Structural)]
pub struct NodeId(pub u32);

/// Edge of the routing graph.
#[derive(Debug, Clone, Copy, PartialEq, Eq, Hash, PartialOrd, Ord, Structural)]
pub struct EdgeId(pub u32);

/// Transit line registered for a legacy route.
#[derive(Debug, Clone, Copy, PartialEq, Eq, Hash, PartialOrd, Ord, Structural)]
pub struct LineId(pub u32);

} // verus!

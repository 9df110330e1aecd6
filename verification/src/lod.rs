//! Level of detail of chunks: their classification from subscribers and
//! population, and the deterministic plan of agents spawned when a warm
//! chunk becomes active.
use vstd::prelude::*;

use crate::assoc::AssocList;
use crate::graph::{EdgeKind, RoutingGraph};
use crate::ids::ChunkCoord;
use crate::text::{append_decimal, append_signed_decimal, append_text, decimal, prefixed_decimal, signed_decimal};
use crate::wander::{fnv1a, fnv1a_extend, le_bytes_n, push_le_bytes};

verus! {

/// Level-of-detail class of a chunk, ordered from coldest to hottest.
#[derive(Debug, Clone, Copy, PartialEq, Eq, Hash, Structural)]
pub enum MobilityActivity {
    Asleep,
    Warm,
    Active,
    Hot,
}

impl Default for MobilityActivity {
    /// A chunk starts asleep.
    fn default() -> (r: Self)
        ensures
            r == MobilityActivity::Asleep,
    {
        MobilityActivity::Asleep
    }
}

/// Number of ticks a chunk keeps its class after a change of target.
pub const ACTIVITY_HYSTERESIS_TICKS: u8 = 30;

/// The class a chunk would take with no hysteresis.
pub open spec fn target_activity(subscribers: u8, population: u32) -> MobilityActivity {
    if subscribers >= 2 {
        MobilityActivity::Hot
    } else if subscribers == 1 {
        MobilityActivity::Active
    } else if population > 0 {
        MobilityActivity::Warm
    } else {
        MobilityActivity::Asleep
    }
}

/// Classifies a chunk from its subscriber count and population, holding the
/// previous class while a cooldown is running.
pub fn classify_chunk_mobility_activity(
    subscribers: u8,
    population: u32,
    previous: MobilityActivity,
    cooldown_remaining: u8,
) -> (result: MobilityActivity)
    ensures
        result == (if cooldown_remaining == 0 { target_activity(subscribers, population) } else { previous }),
{
    let target = if subscribers >= 2 {
        MobilityActivity::Hot
    } else if subscribers == 1 {
        MobilityActivity::Active
    } else if population > 0 {
        MobilityActivity::Warm
    } else {
        MobilityActivity::Asleep
    };
    if target == previous || cooldown_remaining == 0 {
        target
    } else {
        previous
    }
}

/// The cooldown a chunk carries into the next tick: the full hysteresis
/// when its class changed this tick, else one tick less, down to zero.
pub fn next_cooldown(changed: bool, cooldown: u8) -> (r: u8)
    ensures
        r == (if changed { ACTIVITY_HYSTERESIS_TICKS as int } else if cooldown > 0 { cooldown - 1 } else { 0 }),
{
    if changed {
        ACTIVITY_HYSTERESIS_TICKS
    } else if cooldown > 0 {
        cooldown - 1
    } else {
        0
    }
}

/// The bytes `lod_seed` hashes: the chunk coordinates as 32-bit words,
/// then the tick and the spawn index as 64-bit words, all little-endian.
pub open spec fn lod_seed_bytes(x: i32, y: i32, tick: u64, n: u64) -> Seq<u8> {
    le_bytes_n(x as u32 as u64, 4) + le_bytes_n(y as u32 as u64, 4) + le_bytes_n(tick, 8) + le_bytes_n(n, 8)
}

/// Deterministic seed of the `n`-th agent spawned in chunk `(x, y)` at
/// `tick`: FNV-1a over `lod_seed_bytes`.
pub fn lod_seed(x: i32, y: i32, tick: u64, n: u64) -> (r: u64)
    ensures
        r == fnv1a(lod_seed_bytes(x, y, tick, n)),
{
    let mut bytes: Vec<u8> = Vec::new();
    push_le_bytes(&mut bytes, x as u32 as u64, 4);
    push_le_bytes(&mut bytes, y as u32 as u64, 4);
    push_le_bytes(&mut bytes, tick, 8);
    push_le_bytes(&mut bytes, n, 8);
    assert(Seq::<u8>::empty() + bytes@ =~= lod_seed_bytes(x, y, tick, n));
    fnv1a_extend(crate::wander::FNV_OFFSET, bytes.as_slice(), Ghost(Seq::empty()))
}

/// What is spawned as the `n`-th agent of a warm chunk that becomes active.
#[derive(Debug, Clone, PartialEq, Eq)]
pub struct LodSpawn {
    /// `agent:lod:<x>:<y>:<tick>:<n>`.
    pub agent_id: String,
    /// `activity:lod:<x>:<y>:<n>`, the single stage of its plan.
    pub activity_id: String,
    /// `pedestrian:<seed % 16>`.
    pub sprite_key: String,
    /// Its progress along the spawn link, in thousandths (`seed % 1000`).
    pub progress_permille: u64,
}

/// `agent:lod:<x>:<y>:<tick>:<n>`.
pub open spec fn lod_agent_id(c: ChunkCoord, tick: u64, n: u64) -> Seq<char> {
    seq!['a', 'g', 'e', 'n', 't', ':', 'l', 'o', 'd', ':'] + signed_decimal(c.x as int) + seq![':'] + signed_decimal(c.y as int)
        + seq![':'] + decimal(tick as nat) + seq![':'] + decimal(n as nat)
}

/// `activity:lod:<x>:<y>:<n>`.
pub open spec fn lod_activity_id(c: ChunkCoord, n: u64) -> Seq<char> {
    seq!['a', 'c', 't', 'i', 'v', 'i', 't', 'y', ':', 'l', 'o', 'd', ':'] + signed_decimal(c.x as int) + seq![':']
        + signed_decimal(c.y as int) + seq![':'] + decimal(n as nat)
}

/// `pedestrian:<k>`.
pub open spec fn pedestrian_sprite(k: nat) -> Seq<char> {
    seq!['p', 'e', 'd', 'e', 's', 't', 'r', 'i', 'a', 'n', ':'] + decimal(k)
}

/// `vehicle:<k>`.
pub open spec fn vehicle_sprite(k: nat) -> Seq<char> {
    seq!['v', 'e', 'h', 'i', 'c', 'l', 'e', ':'] + decimal(k)
}

/// The sprite of an agent whose id has stable index `index`:
/// `pedestrian:<index % 16>`.
pub fn agent_sprite_key(index: u32) -> (r: String)
    ensures
        r@ == pedestrian_sprite((index % 16) as nat),
{
    proof {
        reveal_strlit("pedestrian:");
        assert("pedestrian:"@ =~= seq!['p', 'e', 'd', 'e', 's', 't', 'r', 'i', 'a', 'n', ':']);
    }
    prefixed_decimal("pedestrian:", (index % 16) as u64)
}

/// The sprite of a vehicle whose id has stable index `index`:
/// `vehicle:<index % 8>`.
pub fn vehicle_sprite_key(index: u32) -> (r: String)
    ensures
        r@ == vehicle_sprite((index % 8) as nat),
{
    proof {
        reveal_strlit("vehicle:");
        assert("vehicle:"@ =~= seq!['v', 'e', 'h', 'i', 'c', 'l', 'e', ':']);
    }
    prefixed_decimal("vehicle:", (index % 8) as u64)
}

/// The `n`-th agent spawned in chunk `c` at `tick` when the chunk turns
/// from warm to active (see `LodSpawn`).
pub fn lod_spawn(c: ChunkCoord, tick: u64, n: u64) -> (r: LodSpawn)
    ensures
        r.agent_id@ == lod_agent_id(c, tick, n),
        r.activity_id@ == lod_activity_id(c, n),
        r.sprite_key@ == pedestrian_sprite((fnv1a(lod_seed_bytes(c.x, c.y, tick, n)) % 16) as nat),
        r.progress_permille == fnv1a(lod_seed_bytes(c.x, c.y, tick, n)) % 1000,
{
    proof {
        reveal_strlit("agent:lod:");
        reveal_strlit("activity:lod:");
        reveal_strlit("pedestrian:");
        reveal_strlit(":");
        assert("agent:lod:"@ =~= seq!['a', 'g', 'e', 'n', 't', ':', 'l', 'o', 'd', ':']);
        assert("activity:lod:"@ =~= seq!['a', 'c', 't', 'i', 'v', 'i', 't', 'y', ':', 'l', 'o', 'd', ':']);
        assert("pedestrian:"@ =~= seq!['p', 'e', 'd', 'e', 's', 't', 'r', 'i', 'a', 'n', ':']);
        assert(":"@ =~= seq![':']);
    }
    let seed = lod_seed(c.x, c.y, tick, n);
    let mut agent_id = String::from_str("agent:lod:");
    append_signed_decimal(&mut agent_id, c.x as i64);
    append_text(&mut agent_id, ":");
    append_signed_decimal(&mut agent_id, c.y as i64);
    append_text(&mut agent_id, ":");
    append_decimal(&mut agent_id, tick);
    append_text(&mut agent_id, ":");
    append_decimal(&mut agent_id, n);
    let mut activity_id = String::from_str("activity:lod:");
    append_signed_decimal(&mut activity_id, c.x as i64);
    append_text(&mut activity_id, ":");
    append_signed_decimal(&mut activity_id, c.y as i64);
    append_text(&mut activity_id, ":");
    append_decimal(&mut activity_id, n);
    let mut sprite_key = String::from_str("pedestrian:");
    append_decimal(&mut sprite_key, seed % 16);
    LodSpawn { agent_id, activity_id, sprite_key, progress_permille: seed % 1000 }
}

/// Whether edge `i` can take agents spawned in a chunk its polyline touches
/// (`touches[i]`): a footway with a legacy id.
pub open spec fn is_spawn_edge(g: RoutingGraph, touches: Seq<bool>, i: int) -> bool {
    &&& touches[i]
    &&& g.edges@[i].kind == EdgeKind::Footway
    &&& g.edges@[i].legacy_id is Some
}

/// The link agents promoted in a chunk are spawned on: the legacy id of the
/// first edge that can take them (see `is_spawn_edge`), `touches[i]` telling
/// whether edge `i` passes through the chunk. `None` when no edge can.
pub fn lod_spawn_link(graph: &RoutingGraph, touches: &Vec<bool>) -> (r: Option<String>)
    requires
        touches@.len() == graph.edges@.len(),
    ensures
        match r {
            Some(l) => exists|i: int| 0 <= i < touches@.len() && #[trigger] is_spawn_edge(*graph, touches@, i)
                && (forall|j: int| 0 <= j < i ==> !is_spawn_edge(*graph, touches@, j))
                && graph.edges@[i].legacy_id == Some(l),
            None => forall|i: int| 0 <= i < touches@.len() ==> !is_spawn_edge(*graph, touches@, i),
        },
{
    let n = touches.len();
    let mut i: usize = 0;
    while i < n
        invariant
            n == touches@.len(),
            n == graph.edges@.len(),
            i <= n,
            forall|j: int| 0 <= j < i ==> !is_spawn_edge(*graph, touches@, j),
        decreases n - i,
    {
        if touches[i] && graph.edges[i].kind == EdgeKind::Footway {
            match &graph.edges[i].legacy_id {
                Some(l) => {
                    assert(is_spawn_edge(*graph, touches@, i as int));
                    return Some(l.clone());
                },
                None => {},
            }
        }
        i = i + 1;
    }
    None
}

/// The chunk an agent collapsed from `chunk` is heading for: its destination
/// chunk when known, else `chunk` itself.
pub open spec fn heading(chunk: ChunkCoord, dest: Option<ChunkCoord>) -> ChunkCoord {
    match dest {
        Some(d) => d,
        None => chunk,
    }
}

/// How many of the first `n` collapsed agents head for chunk `d`.
pub open spec fn heading_count(chunk: ChunkCoord, dests: Seq<Option<ChunkCoord>>, d: ChunkCoord, n: int) -> nat
    decreases n,
{
    if n <= 0 {
        0
    } else {
        heading_count(chunk, dests, d, n - 1) + (if heading(chunk, dests[n - 1]) == d { 1nat } else { 0 })
    }
}

proof fn lemma_heading_count_bounded(chunk: ChunkCoord, dests: Seq<Option<ChunkCoord>>, d: ChunkCoord, n: int)
    requires
        0 <= n <= dests.len(),
    ensures
        heading_count(chunk, dests, d, n) <= n,
    decreases n,
{
    if n > 0 {
        lemma_heading_count_bounded(chunk, dests, d, n - 1);
    }
}

/// The outflow of a chunk that turns warm, by destination: for each chunk,
/// how many of the collapsed agents (each with its destination chunk, when
/// known) head there; agents without a known destination stay in `chunk`.
pub fn collapse_outflow(chunk: ChunkCoord, dests: &Vec<Option<ChunkCoord>>) -> (r: AssocList<ChunkCoord, u32>)
    requires
        dests@.len() <= u32::MAX,
    ensures
        r.well_formed(),
        forall|d: ChunkCoord| #[trigger] r.map().contains_key(d) <==> heading_count(chunk, dests@, d, dests@.len() as int) > 0,
        forall|d: ChunkCoord| #[trigger] r.map().contains_key(d) ==> r.map()[d] == heading_count(chunk, dests@, d, dests@.len() as int),
{
    let mut out: AssocList<ChunkCoord, u32> = AssocList::new();
    let n = dests.len();
    let mut i: usize = 0;
    while i < n
        invariant
            n == dests@.len(),
            n <= u32::MAX,
            i <= n,
            out.well_formed(),
            forall|d: ChunkCoord| #[trigger] out.map().contains_key(d) <==> heading_count(chunk, dests@, d, i as int) > 0,
            forall|d: ChunkCoord| #[trigger] out.map().contains_key(d) ==> out.map()[d] == heading_count(chunk, dests@, d, i as int),
        decreases n - i,
    {
        let d = match dests[i] {
            Some(d) => d,
            None => chunk,
        };
        proof { lemma_heading_count_bounded(chunk, dests@, d, i as int); }
        let before = match out.get(&d) {
            Some(c) => *c,
            None => 0,
        };
        let ghost old_map = out.map();
        out.insert(d, before + 1);
        proof {
            assert forall|x: ChunkCoord| #[trigger] out.map().contains_key(x) <==> heading_count(chunk, dests@, x, i + 1) > 0 by {
                assert(heading_count(chunk, dests@, x, i + 1) == heading_count(chunk, dests@, x, i as int) + (if heading(chunk, dests@[i as int]) == x { 1nat } else { 0 }));
            }
            assert forall|x: ChunkCoord| #[trigger] out.map().contains_key(x) implies out.map()[x] == heading_count(chunk, dests@, x, i + 1) by {
                assert(heading_count(chunk, dests@, x, i + 1) == heading_count(chunk, dests@, x, i as int) + (if heading(chunk, dests@[i as int]) == x { 1nat } else { 0 }));
                if x != d {
                    assert(old_map.contains_key(x));
                }
            }
        }
        i = i + 1;
    }
    out
}

/// Each collapsed agent is counted toward one destination only: the counts
/// of two different destinations never add up to more than the agents.
pub proof fn lemma_collapse_counts_each_agent_once(chunk: ChunkCoord, dests: Seq<Option<ChunkCoord>>, n: int, a: ChunkCoord, b: ChunkCoord)
    requires
        0 <= n <= dests.len(),
        a != b,
    ensures
        heading_count(chunk, dests, a, n) + heading_count(chunk, dests, b, n) <= n,
    decreases n,
{
    if n > 0 {
        lemma_collapse_counts_each_agent_once(chunk, dests, n - 1, a, b);
    }
}

/// Agents without a known destination all stay in the chunk they were
/// collapsed in.
pub proof fn lemma_undirected_agents_stay(chunk: ChunkCoord, dests: Seq<Option<ChunkCoord>>, n: int)
    requires
        0 <= n <= dests.len(),
        forall|i: int| 0 <= i < n ==> dests[i] is None,
    ensures
        heading_count(chunk, dests, chunk, n) == n,
    decreases n,
{
    if n > 0 {
        lemma_undirected_agents_stay(chunk, dests, n - 1);
    }
}

} // verus!

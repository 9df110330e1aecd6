//! Snapshot payloads and the in-memory snapshot stores. A store answers a
//! read only with a snapshot written under the same base-world metadata.
use vstd::prelude::*;

use crate::assoc::{AssocList, StableKey, has_key, keys_unique, lemma_seq_map_at, seq_map};
use crate::ids::{ChunkCoord, coord_lt};

verus! {

/// Base-world metadata a snapshot was written against.
#[derive(Debug, Clone, PartialEq, Eq, Hash)]
pub struct SnapshotCompatibility {
    pub base_world_id: String,
    pub base_world_schema_version: u32,
}

impl View for SnapshotCompatibility {
    type V = (Seq<char>, u32);

    open spec fn view(&self) -> (Seq<char>, u32) {
        (self.base_world_id@, self.base_world_schema_version)
    }
}

impl SnapshotCompatibility {
    /// Metadata for base world `base_world_id` at schema version `base_world_schema_version`.
    pub fn new(base_world_id: &str, base_world_schema_version: u32) -> (r: Self)
        ensures
            r@ == (base_world_id@, base_world_schema_version),
    {
        SnapshotCompatibility { base_world_id: String::from_str(base_world_id), base_world_schema_version }
    }

    /// A copy of this metadata.
    pub fn copy_metadata(&self) -> (r: Self)
        ensures
            r@ == self@,
    {
        SnapshotCompatibility {
            base_world_id: self.base_world_id.clone(),
            base_world_schema_version: self.base_world_schema_version,
        }
    }

    /// Whether two metadata values are the same.
    pub fn same_as(&self, other: &Self) -> (r: bool)
        ensures
            r == (self@ == other@),
    {
        self.base_world_schema_version == other.base_world_schema_version
            && self.base_world_id == other.base_world_id
    }
}

/// Failure of the chunk snapshot store.
#[derive(Debug, Clone, PartialEq, Eq)]
pub struct ChunkSnapshotStoreError {
    message: String,
}

/// Failure of the mobility snapshot store.
#[derive(Debug, Clone, PartialEq, Eq)]
pub struct MobilitySnapshotStoreError {
    message: String,
}

/// Failure of the economy snapshot store.
#[derive(Debug, Clone, PartialEq, Eq)]
pub struct EconomySnapshotStoreError {
    message: String,
}

impl ChunkSnapshotStoreError {
    /// The error text as characters.
    pub closed spec fn text(&self) -> Seq<char> {
        self.message@
    }

    /// The store could not be reached; `message` says why.
    pub fn unavailable(message: &str) -> (r: Self)
        ensures
            r.text() == message@,
    {
        ChunkSnapshotStoreError { message: String::from_str(message) }
    }

    /// The error text.
    pub fn message(&self) -> (r: &str)
        ensures
            r@ == self.text(),
    {
        self.message.as_str()
    }
}

impl MobilitySnapshotStoreError {
    /// The error text as characters.
    pub closed spec fn text(&self) -> Seq<char> {
        self.message@
    }

    /// The store could not be reached; `message` says why.
    pub fn unavailable(message: &str) -> (r: Self)
        ensures
            r.text() == message@,
    {
        MobilitySnapshotStoreError { message: String::from_str(message) }
    }

    /// The error text.
    pub fn message(&self) -> (r: &str)
        ensures
            r@ == self.text(),
    {
        self.message.as_str()
    }
}

impl EconomySnapshotStoreError {
    /// The error text as characters.
    pub closed spec fn text(&self) -> Seq<char> {
        self.message@
    }

    /// The store could not be reached; `message` says why.
    pub fn unavailable(message: &str) -> (r: Self)
        ensures
            r.text() == message@,
    {
        EconomySnapshotStoreError { message: String::from_str(message) }
    }

    /// The error text.
    pub fn message(&self) -> (r: &str)
        ensures
            r@ == self.text(),
    {
        self.message.as_str()
    }
}

/// Kind of a terrain tile; `Grass` is the default kind.
#[derive(Debug, Clone, Copy, PartialEq, Eq, Hash, Structural)]
pub enum TileKind {
    Grass,
    Water,
    Road,
    BuildingFootprint,
}

/// Simulation fidelity of a chunk as reported in snapshots.
#[derive(Debug, Clone, Copy, PartialEq, Eq, Hash, Structural)]
pub enum ChunkActivity {
    Asleep,
    Warm,
    Active,
    Hot,
}

/// One tile of a chunk.
#[derive(Debug, Clone, Copy, PartialEq, Eq, Structural)]
pub struct TileRecord {
    pub kind: TileKind,
    pub version: u64,
}

/// A non-default tile in a chunk snapshot.
#[derive(Debug, Clone, Copy, PartialEq, Eq, Structural)]
pub struct TileMutation {
    pub local_index: u16,
    pub kind: TileKind,
    pub version: u64,
}

/// Persisted state of one chunk.
#[derive(Debug, Clone, PartialEq, Eq)]
pub struct ChunkSnapshot {
    pub world_id: String,
    pub coord: ChunkCoord,
    pub chunk_state: ChunkActivity,
    pub chunk_version: u64,
    pub tile_count: u16,
    pub tiles: Vec<TileMutation>,
}

/// The non-default tiles among the first `n` of `tiles`, in index order.
pub open spec fn emitted_tiles(tiles: Seq<TileRecord>, n: int) -> Seq<TileMutation>
    decreases n,
{
    if n <= 0 {
        Seq::empty()
    } else {
        let before = emitted_tiles(tiles, n - 1);
        let t = tiles[n - 1];
        if t.kind != TileKind::Grass {
            before.push(TileMutation { local_index: (n - 1) as u16, kind: t.kind, version: t.version })
        } else {
            before
        }
    }
}

/// A chunk snapshot keeps exactly the tiles that are not grass: every such
/// tile appears with its index, kind and version, whatever its version,
/// and every entry is such a tile, in increasing index order.
pub proof fn lemma_snapshot_tiles_are_the_non_grass_tiles(tiles: Seq<TileRecord>, n: int)
    requires
        0 <= n <= tiles.len(),
        tiles.len() <= u16::MAX,
    ensures
        forall|i: int| 0 <= i < n && tiles[i].kind != TileKind::Grass ==>
            emitted_tiles(tiles, n).contains(TileMutation { local_index: i as u16, kind: #[trigger] tiles[i].kind, version: tiles[i].version }),
        forall|k: int| 0 <= k < emitted_tiles(tiles, n).len() ==> {
            let t = #[trigger] emitted_tiles(tiles, n)[k];
            &&& (t.local_index as int) < n
            &&& t.kind != TileKind::Grass
            &&& t.kind == tiles[t.local_index as int].kind
            &&& t.version == tiles[t.local_index as int].version
        },
        forall|a: int, b: int| 0 <= a < b < emitted_tiles(tiles, n).len() ==>
            (#[trigger] emitted_tiles(tiles, n)[a]).local_index < (#[trigger] emitted_tiles(tiles, n)[b]).local_index,
    decreases n,
{
    if n > 0 {
        lemma_snapshot_tiles_are_the_non_grass_tiles(tiles, n - 1);
        let before = emitted_tiles(tiles, n - 1);
        let now = emitted_tiles(tiles, n);
        assert forall|i: int| 0 <= i < n && tiles[i].kind != TileKind::Grass implies
            now.contains(TileMutation { local_index: i as u16, kind: #[trigger] tiles[i].kind, version: tiles[i].version }) by {
            let m = TileMutation { local_index: i as u16, kind: tiles[i].kind, version: tiles[i].version };
            if i < n - 1 {
                let k = choose|k: int| 0 <= k < before.len() && before[k] == m;
                assert(now[k] == before[k]);
            } else {
                assert(now[now.len() - 1] == m);
            }
        }
        assert forall|k: int| 0 <= k < now.len() implies {
            let t = #[trigger] now[k];
            &&& (t.local_index as int) < n
            &&& t.kind != TileKind::Grass
            &&& t.kind == tiles[t.local_index as int].kind
            &&& t.version == tiles[t.local_index as int].version
        } by {
            if k < before.len() {
                assert(now[k] == before[k]);
            }
        }
        assert forall|a: int, b: int| 0 <= a < b < now.len() implies
            (#[trigger] now[a]).local_index < (#[trigger] now[b]).local_index by {
            assert(now[a] == before[a]);
            if b < before.len() {
                assert(now[b] == before[b]);
            }
        }
    }
}

/// Builds the snapshot of a chunk from its tiles: every tile whose kind is not
/// the default, with its index, in index order.
pub fn build_chunk_snapshot_from_parts(
    world_id: &str,
    coord: ChunkCoord,
    tiles: &[TileRecord],
    chunk_version: u64,
    activity: ChunkActivity,
) -> (r: ChunkSnapshot)
    requires
        tiles@.len() <= u16::MAX,
    ensures
        r.world_id@ == world_id@,
        r.coord == coord,
        r.chunk_state == activity,
        r.chunk_version == chunk_version,
        r.tile_count == tiles@.len(),
        r.tiles@ == emitted_tiles(tiles@, tiles@.len() as int),
        forall|i: int| 0 <= i < tiles@.len() && tiles@[i].kind != TileKind::Grass ==>
            r.tiles@.contains(TileMutation { local_index: i as u16, kind: #[trigger] tiles@[i].kind, version: tiles@[i].version }),
        forall|k: int| 0 <= k < r.tiles@.len() ==> {
            let t = #[trigger] r.tiles@[k];
            &&& (t.local_index as int) < tiles@.len()
            &&& t.kind != TileKind::Grass
            &&& t.kind == tiles@[t.local_index as int].kind
            &&& t.version == tiles@[t.local_index as int].version
        },
{
    proof { lemma_snapshot_tiles_are_the_non_grass_tiles(tiles@, tiles@.len() as int); }
    let n = tiles.len();
    let mut emitted: Vec<TileMutation> = Vec::new();
    let mut i: usize = 0;
    while i < n
        invariant
            n == tiles@.len(),
            n <= u16::MAX,
            i <= n,
            emitted@ == emitted_tiles(tiles@, i as int),
        decreases n - i,
    {
        let tile = tiles[i];
        if tile.kind != TileKind::Grass {
            emitted.push(TileMutation { local_index: i as u16, kind: tile.kind, version: tile.version });
        }
        i = i + 1;
    }
    ChunkSnapshot {
        world_id: String::from_str(world_id),
        coord,
        chunk_state: activity,
        chunk_version,
        tile_count: n as u16,
        tiles: emitted,
    }
}

/// Key of a stored chunk snapshot.
#[derive(Debug, Clone)]
pub struct ChunkStoreKey {
    pub coord: ChunkCoord,
    pub compatibility: SnapshotCompatibility,
}

impl StableKey for ChunkStoreKey {
    type Key = (ChunkCoord, (Seq<char>, u32));

    open spec fn key(&self) -> (ChunkCoord, (Seq<char>, u32)) {
        (self.coord, self.compatibility@)
    }

    fn same_key(&self, other: &Self) -> (r: bool) {
        self.coord == other.coord && self.compatibility.same_as(&other.compatibility)
    }

    fn copy_key(&self) -> (r: Self) {
        ChunkStoreKey { coord: self.coord, compatibility: self.compatibility.copy_metadata() }
    }
}

/// Key of a stored world snapshot.
#[derive(Debug, Clone)]
pub struct WorldStoreKey {
    pub world_id: String,
    pub compatibility: SnapshotCompatibility,
}

impl StableKey for WorldStoreKey {
    type Key = (Seq<char>, (Seq<char>, u32));

    open spec fn key(&self) -> (Seq<char>, (Seq<char>, u32)) {
        (self.world_id@, self.compatibility@)
    }

    fn same_key(&self, other: &Self) -> (r: bool) {
        self.world_id == other.world_id && self.compatibility.same_as(&other.compatibility)
    }

    fn copy_key(&self) -> (r: Self) {
        WorldStoreKey { world_id: self.world_id.clone(), compatibility: self.compatibility.copy_metadata() }
    }
}

/// Chunk snapshots kept in memory, one per (coordinate, base-world metadata).
#[derive(Debug)]
pub struct InMemoryChunkSnapshotStore {
    snapshots: AssocList<ChunkStoreKey, ChunkSnapshot>,
}

impl InMemoryChunkSnapshotStore {
    /// Keys are unique.
    #[verifier::type_invariant]
    spec fn well_formed(&self) -> bool {
        self.snapshots.well_formed()
    }

    /// The stored snapshots by (coordinate, metadata).
    pub closed spec fn stored(&self) -> Map<(ChunkCoord, (Seq<char>, u32)), ChunkSnapshot> {
        self.snapshots.map()
    }

    /// An empty store.
    pub fn new() -> (r: Self)
        ensures
            r.stored() =~= Map::empty(),
    {
        InMemoryChunkSnapshotStore { snapshots: AssocList::new() }
    }

    /// Stores `snapshot` under its own coordinate and `compatibility`,
    /// replacing what was stored there.
    pub fn write_snapshot(&mut self, snapshot: ChunkSnapshot, compatibility: &SnapshotCompatibility)
        ensures
            final(self).stored() == old(self).stored().insert((snapshot.coord, compatibility@), snapshot),
    {
        proof { use_type_invariant(&*self); }
        let key = ChunkStoreKey { coord: snapshot.coord, compatibility: compatibility.copy_metadata() };
        let mut table = AssocList::new();
        std::mem::swap(&mut table, &mut self.snapshots);
        table.insert(key, snapshot);
        self.snapshots = table;
    }

    /// The snapshot stored for `coord` under exactly `compatibility`.
    pub fn read_snapshot(&self, coord: ChunkCoord, compatibility: &SnapshotCompatibility) -> (r: Option<&ChunkSnapshot>)
        ensures
            match r {
                Some(s) => self.stored().contains_key((coord, compatibility@))
                    && *s == self.stored()[(coord, compatibility@)],
                None => !self.stored().contains_key((coord, compatibility@)),
            },
    {
        proof { use_type_invariant(self); }
        let key = ChunkStoreKey { coord, compatibility: compatibility.copy_metadata() };
        self.snapshots.get(&key)
    }

    /// Number of stored snapshots.
    pub fn snapshot_count(&self) -> (r: usize)
        ensures
            r == self.stored().dom().len(),
    {
        proof {
            use_type_invariant(self);
            lemma_dom_len(self.snapshots.entries@);
        }
        self.snapshots.len()
    }

    /// The coordinates that have some stored snapshot, each once, in `(x, y)` order.
    pub fn snapshot_coords(&self) -> (r: Vec<ChunkCoord>)
        ensures
            forall|i: int, j: int| 0 <= i < j < r@.len() ==> coord_lt(#[trigger] r@[i], #[trigger] r@[j]),
            forall|c: ChunkCoord| r@.contains(c) <==> exists|k: (ChunkCoord, (Seq<char>, u32))|
                #[trigger] self.stored().contains_key(k) && k.0 == c,
    {
        proof { use_type_invariant(self); }
        let n = self.snapshots.len();
        let mut out: Vec<ChunkCoord> = Vec::new();
        let mut i: usize = 0;
        while i < n
            invariant
                n == self.snapshots.entries@.len(),
                keys_unique(self.snapshots.entries@),
                i <= n,
                forall|a: int, b: int| 0 <= a < b < out@.len() ==> coord_lt(#[trigger] out@[a], #[trigger] out@[b]),
                forall|c: ChunkCoord| out@.contains(c) <==> exists|j: int| 0 <= j < i && (#[trigger] self.snapshots.entries@[j]).0.coord == c,
            decreases n - i,
        {
            let c = self.snapshots.entries[i].0.coord;
            insert_sorted_coord(&mut out, c);
            i = i + 1;
        }
        proof {
            assert forall|c: ChunkCoord| out@.contains(c) <==> exists|k: (ChunkCoord, (Seq<char>, u32))|
                #[trigger] self.stored().contains_key(k) && k.0 == c by {
                if out@.contains(c) {
                    let j = choose|j: int| 0 <= j < n && (#[trigger] self.snapshots.entries@[j]).0.coord == c;
                    lemma_seq_map_at(self.snapshots.entries@, j);
                    assert(self.stored().contains_key(self.snapshots.entries@[j].0.key()));
                }
                if exists|k: (ChunkCoord, (Seq<char>, u32))| #[trigger] self.stored().contains_key(k) && k.0 == c {
                    let k = choose|k: (ChunkCoord, (Seq<char>, u32))| #[trigger] self.stored().contains_key(k) && k.0 == c;
                    assert(has_key(self.snapshots.entries@, k));
                    let j = choose|j: int| 0 <= j < self.snapshots.entries@.len() && (#[trigger] self.snapshots.entries@[j]).0.key() == k;
                    assert(self.snapshots.entries@[j].0.coord == c);
                }
            }
        }
        out
    }
}

/// In a list with unique keys, the map has as many keys as the list has entries.
pub proof fn lemma_dom_len<K: StableKey, V>(s: Seq<(K, V)>)
    requires
        keys_unique(s),
    ensures
        seq_map(s).dom().finite(),
        seq_map(s).dom().len() == s.len(),
    decreases s.len(),
{
    if s.len() == 0 {
        assert(seq_map(s).dom() =~= Set::empty());
    } else {
        let t = s.drop_last();
        assert(keys_unique(t)) by {
            assert forall|i: int, j: int| 0 <= i < t.len() && 0 <= j < t.len() && i != j
                implies (#[trigger] t[i]).0.key() != (#[trigger] t[j]).0.key() by {
                assert(t[i] == s[i] && t[j] == s[j]);
            }
        }
        lemma_dom_len(t);
        let k = s.last().0;
        assert(!has_key(t, k.key())) by {
            if has_key(t, k.key()) {
                let i = choose|i: int| 0 <= i < t.len() && (#[trigger] t[i]).0.key() == k.key();
                assert(s[i] == t[i]);
                assert(s[s.len() - 1].0.key() == k.key());
            }
        }
        crate::assoc::lemma_seq_map_push(t, k, s.last().1);
        assert(t.push((k, s.last().1)) =~= s);
    }
}

/// Inserts `c` into the strictly increasing `v` unless it is already there.
fn insert_sorted_coord(v: &mut Vec<ChunkCoord>, c: ChunkCoord)
    requires
        forall|a: int, b: int| 0 <= a < b < old(v)@.len() ==> coord_lt(#[trigger] old(v)@[a], #[trigger] old(v)@[b]),
    ensures
        forall|a: int, b: int| 0 <= a < b < final(v)@.len() ==> coord_lt(#[trigger] final(v)@[a], #[trigger] final(v)@[b]),
        forall|d: ChunkCoord| final(v)@.contains(d) <==> (old(v)@.contains(d) || d == c),
{
    let n = v.len();
    let mut p: usize = 0;
    while p < n && v[p].precedes(&c)
        invariant
            n == v@.len(),
            v@ == old(v)@,
            p <= n,
            forall|a: int| 0 <= a < p ==> coord_lt(#[trigger] v@[a], c),
        decreases n - p,
    {
        p = p + 1;
    }
    if p < n && v[p] == c {
        assert(old(v)@[p as int] == c);
        assert forall|d: ChunkCoord| v@.contains(d) <==> (old(v)@.contains(d) || d == c) by {
            if d == c {
                assert(v@[p as int] == d);
            }
        }
        return;
    }
    let ghost before = v@;
    v.insert(p, c);
    proof {
        assert forall|a: int, b: int| 0 <= a < b < v@.len() implies coord_lt(#[trigger] v@[a], #[trigger] v@[b]) by {
            if b < p {
            } else if b == p {
                assert(v@[a] == before[a]);
            } else if a < p {
                assert(v@[a] == before[a]);
                assert(v@[b] == before[b - 1]);
                assert(!coord_lt(before[p as int], c));
                if b - 1 > p {
                    assert(coord_lt(before[p as int], before[b - 1]));
                }
            } else if a == p {
                assert(v@[b] == before[b - 1]);
                assert(!coord_lt(before[p as int], c));
                assert(before[p as int] != c);
                if b - 1 > p {
                    assert(coord_lt(before[p as int], before[b - 1]));
                }
            } else {
                assert(v@[a] == before[a - 1]);
                assert(v@[b] == before[b - 1]);
            }
        }
        assert forall|d: ChunkCoord| v@.contains(d) <==> (before.contains(d) || d == c) by {
            if v@.contains(d) {
                let k = choose|k: int| 0 <= k < v@.len() && v@[k] == d;
                if k < p { assert(before[k] == d); } else if k > p { assert(before[k - 1] == d); }
            }
            if before.contains(d) {
                let k = choose|k: int| 0 <= k < before.len() && before[k] == d;
                if k < p { assert(v@[k] == d); } else { assert(v@[k + 1] == d); }
            }
            if d == c {
                assert(v@[p as int] == c);
            }
        }
        assert(before == old(v)@);
        assert(forall|d: ChunkCoord| v@.contains(d) <==> (old(v)@.contains(d) || d == c));
    }
}

/// World snapshots kept in memory, one per (world id, base-world metadata),
/// each with the tick it was taken at.
#[derive(Debug)]
pub struct InMemoryWorldSnapshotStore<S> {
    snapshots: AssocList<WorldStoreKey, (u64, S)>,
}

impl<S> InMemoryWorldSnapshotStore<S> {
    /// Keys are unique.
    #[verifier::type_invariant]
    spec fn well_formed(&self) -> bool {
        self.snapshots.well_formed()
    }

    /// The stored (tick, snapshot) pairs by (world id, metadata).
    pub closed spec fn stored(&self) -> Map<(Seq<char>, (Seq<char>, u32)), (u64, S)> {
        self.snapshots.map()
    }
}

impl<S: Clone> InMemoryWorldSnapshotStore<S> {
    /// An empty store.
    pub fn new() -> (r: Self)
        ensures
            r.stored() =~= Map::empty(),
    {
        InMemoryWorldSnapshotStore { snapshots: AssocList::new() }
    }

    /// Stores a copy of `snapshot` taken at `tick` for `world_id` under
    /// `compatibility`, replacing what was stored there.
    pub fn write_snapshot(&mut self, world_id: &str, tick: u64, snapshot: &S, compatibility: &SnapshotCompatibility)
        ensures
            exists|copy: S| cloned(*snapshot, copy) && final(self).stored()
                == old(self).stored().insert((world_id@, compatibility@), (tick, copy)),
    {
        proof { use_type_invariant(&*self); }
        let key = WorldStoreKey { world_id: String::from_str(world_id), compatibility: compatibility.copy_metadata() };
        let copy = snapshot.clone();
        let ghost g = copy;
        let mut table = AssocList::new();
        std::mem::swap(&mut table, &mut self.snapshots);
        table.insert(key, (tick, copy));
        self.snapshots = table;
        assert(cloned(*snapshot, g));
        assert(self.stored() == old(self).stored().insert((world_id@, compatibility@), (tick, g)));
    }

    /// The (tick, copy of the snapshot) stored for `world_id` under exactly `compatibility`.
    pub fn read_snapshot(&self, world_id: &str, compatibility: &SnapshotCompatibility) -> (r: Option<(u64, S)>)
        ensures
            match r {
                Some(p) => self.stored().contains_key((world_id@, compatibility@))
                    && p.0 == self.stored()[(world_id@, compatibility@)].0
                    && cloned(self.stored()[(world_id@, compatibility@)].1, p.1),
                None => !self.stored().contains_key((world_id@, compatibility@)),
            },
    {
        proof { use_type_invariant(self); }
        let key = WorldStoreKey { world_id: String::from_str(world_id), compatibility: compatibility.copy_metadata() };
        match self.snapshots.get(&key) {
            Some(entry) => Some((entry.0, entry.1.clone())),
            None => None,
        }
    }
}

/// Storage of the mobility state of a world.
pub trait MobilitySnapshotStore<S> {
    /// Stores `snapshot`, taken at `tick`, for `world_id` under `compatibility`.
    fn write(&mut self, world_id: &str, tick: u64, snapshot: &S, compatibility: &SnapshotCompatibility)
        -> Result<(), MobilitySnapshotStoreError>;

    /// Reads the snapshot stored for `world_id` under exactly `compatibility`.
    fn read(&self, world_id: &str, compatibility: &SnapshotCompatibility)
        -> Result<Option<(u64, S)>, MobilitySnapshotStoreError>;
}

/// Storage of the economy state of a world.
pub trait EconomySnapshotStore<S> {
    /// Stores `snapshot`, taken at `tick`, for `world_id` under `compatibility`.
    fn write(&mut self, world_id: &str, tick: u64, snapshot: &S, compatibility: &SnapshotCompatibility)
        -> Result<(), EconomySnapshotStoreError>;

    /// Reads the snapshot stored for `world_id` under exactly `compatibility`.
    fn read(&self, world_id: &str, compatibility: &SnapshotCompatibility)
        -> Result<Option<(u64, S)>, EconomySnapshotStoreError>;
}

/// Mobility snapshots kept in memory.
#[derive(Debug)]
pub struct InMemoryMobilitySnapshotStore<S> {
    pub inner: InMemoryWorldSnapshotStore<S>,
}

/// Economy snapshots kept in memory.
#[derive(Debug)]
pub struct InMemoryEconomySnapshotStore<S> {
    pub inner: InMemoryWorldSnapshotStore<S>,
}

impl<S: Clone> InMemoryMobilitySnapshotStore<S> {
    /// An empty store.
    pub fn new() -> (r: Self)
        ensures
            r.inner.stored() =~= Map::empty(),
    {
        InMemoryMobilitySnapshotStore { inner: InMemoryWorldSnapshotStore::new() }
    }
}

impl<S: Clone> InMemoryEconomySnapshotStore<S> {
    /// An empty store.
    pub fn new() -> (r: Self)
        ensures
            r.inner.stored() =~= Map::empty(),
    {
        InMemoryEconomySnapshotStore { inner: InMemoryWorldSnapshotStore::new() }
    }
}

impl Default for InMemoryChunkSnapshotStore {
    fn default() -> (r: Self)
        ensures
            r.stored() =~= Map::empty(),
    {
        InMemoryChunkSnapshotStore::new()
    }
}

impl<S: Clone> Default for InMemoryMobilitySnapshotStore<S> {
    fn default() -> (r: Self)
        ensures
            r.inner.stored() =~= Map::empty(),
    {
        InMemoryMobilitySnapshotStore::new()
    }
}

impl<S: Clone> Default for InMemoryEconomySnapshotStore<S> {
    fn default() -> (r: Self)
        ensures
            r.inner.stored() =~= Map::empty(),
    {
        InMemoryEconomySnapshotStore::new()
    }
}

impl<S: Clone> MobilitySnapshotStore<S> for InMemoryMobilitySnapshotStore<S> {
    fn write(&mut self, world_id: &str, tick: u64, snapshot: &S, compatibility: &SnapshotCompatibility)
        -> (r: Result<(), MobilitySnapshotStoreError>)
        ensures
            r is Ok,
            exists|copy: S| cloned(*snapshot, copy) && final(self).inner.stored()
                == old(self).inner.stored().insert((world_id@, compatibility@), (tick, copy)),
    {
        self.inner.write_snapshot(world_id, tick, snapshot, compatibility);
        Ok(())
    }

    fn read(&self, world_id: &str, compatibility: &SnapshotCompatibility)
        -> (r: Result<Option<(u64, S)>, MobilitySnapshotStoreError>)
        ensures
            match r {
                Ok(Some(p)) => self.inner.stored().contains_key((world_id@, compatibility@))
                    && p.0 == self.inner.stored()[(world_id@, compatibility@)].0
                    && cloned(self.inner.stored()[(world_id@, compatibility@)].1, p.1),
                Ok(None) => !self.inner.stored().contains_key((world_id@, compatibility@)),
                Err(_) => false,
            },
    {
        Ok(self.inner.read_snapshot(world_id, compatibility))
    }
}

impl<S: Clone> EconomySnapshotStore<S> for InMemoryEconomySnapshotStore<S> {
    fn write(&mut self, world_id: &str, tick: u64, snapshot: &S, compatibility: &SnapshotCompatibility)
        -> (r: Result<(), EconomySnapshotStoreError>)
        ensures
            r is Ok,
            exists|copy: S| cloned(*snapshot, copy) && final(self).inner.stored()
                == old(self).inner.stored().insert((world_id@, compatibility@), (tick, copy)),
    {
        self.inner.write_snapshot(world_id, tick, snapshot, compatibility);
        Ok(())
    }

    fn read(&self, world_id: &str, compatibility: &SnapshotCompatibility)
        -> (r: Result<Option<(u64, S)>, EconomySnapshotStoreError>)
        ensures
            match r {
                Ok(Some(p)) => self.inner.stored().contains_key((world_id@, compatibility@))
                    && p.0 == self.inner.stored()[(world_id@, compatibility@)].0
                    && cloned(self.inner.stored()[(world_id@, compatibility@)].1, p.1),
                Ok(None) => !self.inner.stored().contains_key((world_id@, compatibility@)),
                Err(_) => false,
            },
    {
        Ok(self.inner.read_snapshot(world_id, compatibility))
    }
}

/// A read answers with what the last write under the same world id and
/// metadata stored, and a write leaves every other (world id, metadata)
/// entry as it was: snapshots written under other base-world metadata are
/// never visible to a read.
pub proof fn lemma_world_store_read_after_write<S>(
    before: Map<(Seq<char>, (Seq<char>, u32)), (u64, S)>,
    world_id: Seq<char>,
    compatibility: (Seq<char>, u32),
    tick: u64,
    copy: S,
    other_world: Seq<char>,
    other_compatibility: (Seq<char>, u32),
)
    ensures
        before.insert((world_id, compatibility), (tick, copy))[(world_id, compatibility)] == (tick, copy),
        (other_world, other_compatibility) != (world_id, compatibility) ==> {
            &&& before.insert((world_id, compatibility), (tick, copy)).contains_key((other_world, other_compatibility))
                == before.contains_key((other_world, other_compatibility))
            &&& before.insert((world_id, compatibility), (tick, copy))[(other_world, other_compatibility)]
                == before[(other_world, other_compatibility)]
        },
        Map::<(Seq<char>, (Seq<char>, u32)), (u64, S)>::empty().insert((world_id, compatibility), (tick, copy))
            .contains_key((other_world, other_compatibility)) == ((other_world, other_compatibility) == (world_id, compatibility)),
{
}

/// A chunk-store read after a write of `snapshot` under `compatibility`
/// answers with that snapshot for its coordinate and metadata; under any
/// other metadata, or for another coordinate, it answers as before the write.
pub proof fn lemma_chunk_store_read_after_write(
    before: &InMemoryChunkSnapshotStore,
    after: &InMemoryChunkSnapshotStore,
    snapshot: ChunkSnapshot,
    compatibility: (Seq<char>, u32),
    coord: ChunkCoord,
    other_compatibility: (Seq<char>, u32),
)
    requires
        after.stored() == before.stored().insert((snapshot.coord, compatibility), snapshot),
    ensures
        after.stored().contains_key((snapshot.coord, compatibility)),
        after.stored()[(snapshot.coord, compatibility)] == snapshot,
        (coord, other_compatibility) != (snapshot.coord, compatibility) ==> {
            &&& after.stored().contains_key((coord, other_compatibility)) == before.stored().contains_key((coord, other_compatibility))
            &&& after.stored()[(coord, other_compatibility)] == before.stored()[(coord, other_compatibility)]
        },
{
}

} // verus!

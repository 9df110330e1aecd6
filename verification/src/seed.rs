//! Pedestrian walks seeded from the authored city network and from the
//! base world's walkable grass. Points are carried as an opaque type `P`:
//! the logic decides which links exist, what they are called and which
//! points they join, and never computes with coordinates.
use vstd::prelude::*;

use crate::ids::{AgentId, VehicleId};
use crate::persistence::TileKind;
use crate::records::{PlanStage, SeedDensity, SeedError};
use crate::text::{append_decimal, append_text, decimal, prefixed_decimal, str_equal};

verus! {

/// Size of the world in tiles.
#[derive(Debug, Clone, Copy, PartialEq, Eq, Structural)]
pub struct WorldTiles {
    pub width: u32,
    pub height: u32,
}

/// The authored city network: arterial paths and pedestrian corridors, each
/// a polyline of points.
#[derive(Debug, Clone)]
pub struct CityNetwork<P> {
    pub version: u32,
    pub world_id: String,
    pub chunk_size: u32,
    pub world_tiles: WorldTiles,
    pub arterial_paths: Vec<Vec<P>>,
    pub pedestrian_corridors: Vec<Vec<P>>,
}

/// A walkable link to seed into the routing graph.
#[derive(Debug, Clone)]
pub struct SeededWalk<P> {
    pub legacy_link_id: String,
    pub polyline: Vec<P>,
}

/// The tiles of the base world, row by row: each tile's kind and the point
/// at its centre.
#[derive(Debug, Clone)]
pub struct TileGrid<P> {
    pub width: u32,
    pub height: u32,
    pub kinds: Vec<TileKind>,
    pub centers: Vec<P>,
}

/// What seeding reads of a base world: its city network and its tiles.
#[derive(Debug, Clone)]
pub struct BaseWorld<P> {
    pub network: CityNetwork<P>,
    pub tiles: TileGrid<P>,
}

/// A seeded walk as its id and its points.
pub open spec fn walk_view<P>(w: SeededWalk<P>) -> (Seq<char>, Seq<P>) {
    (w.legacy_link_id@, w.polyline@)
}

/// The seeded walks `v`, each as its id and points.
pub open spec fn walks_view<P>(v: Seq<SeededWalk<P>>) -> Seq<(Seq<char>, Seq<P>)> {
    v.map_values(|w: SeededWalk<P>| walk_view(w))
}

/// `link:walk:corridor:<i>`.
pub open spec fn corridor_link_id(i: nat) -> Seq<char> {
    seq!['l', 'i', 'n', 'k', ':', 'w', 'a', 'l', 'k', ':', 'c', 'o', 'r', 'r', 'i', 'd', 'o', 'r', ':'] + decimal(i)
}

/// The walks of the first `n` corridors: one per corridor of two or more
/// points, named after the corridor's index, along its points.
pub open spec fn corridor_walks<P>(corridors: Seq<Seq<P>>, n: int) -> Seq<(Seq<char>, Seq<P>)>
    decreases n,
{
    if n <= 0 {
        Seq::empty()
    } else if corridors[n - 1].len() < 2 {
        corridor_walks(corridors, n - 1)
    } else {
        corridor_walks(corridors, n - 1).push((corridor_link_id((n - 1) as nat), corridors[n - 1]))
    }
}

/// The corridors of a network, each as its points.
pub open spec fn corridors_view<P>(network: CityNetwork<P>) -> Seq<Seq<P>> {
    network.pedestrian_corridors@.map_values(|c: Vec<P>| c@)
}

/// A copy of the points of `v`.
fn copy_points<P: Copy>(v: &Vec<P>) -> (r: Vec<P>)
    ensures
        r@ == v@,
{
    let mut out: Vec<P> = Vec::new();
    let mut i: usize = 0;
    while i < v.len()
        invariant
            i <= v@.len(),
            out@ == v@.subrange(0, i as int),
        decreases v@.len() - i,
    {
        out.push(v[i]);
        assert(v@.subrange(0, i + 1) =~= v@.subrange(0, i as int).push(v@[i as int]));
        i = i + 1;
    }
    assert(v@.subrange(0, v@.len() as int) =~= v@);
    out
}

/// Pedestrian walks generated from the authored network: one per corridor
/// with at least two points, `link:walk:corridor:<index>`, along the
/// corridor.
pub fn seeded_walks_from_network<P: Copy>(network: &CityNetwork<P>) -> (r: Vec<SeededWalk<P>>)
    ensures
        walks_view(r@) == corridor_walks(corridors_view(*network), network.pedestrian_corridors@.len() as int),
{
    let ghost cs = corridors_view(*network);
    let mut out: Vec<SeededWalk<P>> = Vec::new();
    let n = network.pedestrian_corridors.len();
    let mut i: usize = 0;
    proof {
        reveal_strlit("link:walk:corridor:");
        assert("link:walk:corridor:"@ =~= seq!['l', 'i', 'n', 'k', ':', 'w', 'a', 'l', 'k', ':', 'c', 'o', 'r', 'r', 'i', 'd', 'o', 'r', ':']);
    }
    while i < n
        invariant
            n == network.pedestrian_corridors@.len(),
            cs == corridors_view(*network),
            "link:walk:corridor:"@ == seq!['l', 'i', 'n', 'k', ':', 'w', 'a', 'l', 'k', ':', 'c', 'o', 'r', 'r', 'i', 'd', 'o', 'r', ':'],
            i <= n,
            walks_view(out@) == corridor_walks(cs, i as int),
        decreases n - i,
    {
        let corridor = &network.pedestrian_corridors[i];
        assert(cs[i as int] == corridor@);
        if corridor.len() >= 2 {
            let id = prefixed_decimal("link:walk:corridor:", i as u64);
            let polyline = copy_points(corridor);
            let ghost before = walks_view(out@);
            out.push(SeededWalk { legacy_link_id: id, polyline });
            assert(walks_view(out@) =~= before.push((corridor_link_id(i as nat), cs[i as int])));
        }
        i = i + 1;
    }
    out
}

impl<P> TileGrid<P> {
    /// One kind and one centre per tile, and coordinates fit in `i32`.
    pub open spec fn well_formed(&self) -> bool {
        &&& self.width <= i32::MAX
        &&& self.height <= i32::MAX
        &&& self.kinds@.len() == self.width * self.height
        &&& self.centers@.len() == self.width * self.height
    }

    /// Index of tile `(x, y)` in the row-major tables.
    pub open spec fn index_of(&self, x: int, y: int) -> int {
        y * self.width + x
    }

    /// Whether `(x, y)` lies in the world.
    pub open spec fn in_bounds(&self, x: int, y: int) -> bool {
        0 <= x < self.width && 0 <= y < self.height
    }

    /// Whether `(x, y)` is a grass tile inside the world.
    pub open spec fn walkable_grass(&self, x: int, y: int) -> bool {
        self.in_bounds(x, y) && self.kinds@[self.index_of(x, y)] == TileKind::Grass
    }

    /// The centre point of tile `(x, y)`.
    pub open spec fn center(&self, x: int, y: int) -> P {
        self.centers@[self.index_of(x, y)]
    }
}

/// A tile inside the world has its index inside the tables.
proof fn lemma_index_in_range(w: int, h: int, x: int, y: int)
    requires
        0 <= x < w,
        0 <= y < h,
    ensures
        0 <= y * w + x < w * h,
{
    assert(y * w + x < w * h) by (nonlinear_arith)
        requires
            0 <= x < w,
            0 <= y < h,
    {
        assert(y * w + x < y * w + w);
        assert(y * w + w == (y + 1) * w);
        assert((y + 1) * w <= h * w);
    }
    assert(0 <= y * w) by (nonlinear_arith)
        requires
            0 <= y,
            0 <= w,
    ;
}

/// Whether tile `(x, y)` is walkable grass.
pub fn is_walkable_grass<P>(grid: &TileGrid<P>, x: i32, y: i32) -> (r: bool)
    requires
        grid.well_formed(),
    ensures
        r == grid.walkable_grass(x as int, y as int),
{
    if x < 0 || y < 0 || x as i64 >= grid.width as i64 || y as i64 >= grid.height as i64 {
        return false;
    }
    proof { lemma_index_in_range(grid.width as int, grid.height as int, x as int, y as int); }
    let len = grid.kinds.len();
    assert((y as int) * (grid.width as int) + (x as int) < len);
    let idx = (y as usize) * (grid.width as usize) + (x as usize);
    grid.kinds[idx] == TileKind::Grass
}

/// `link:walk:grass:<x>:<y>:<dir>`.
pub open spec fn grass_link_id(x: nat, y: nat, dir: Seq<char>) -> Seq<char> {
    seq!['l', 'i', 'n', 'k', ':', 'w', 'a', 'l', 'k', ':', 'g', 'r', 'a', 's', 's', ':'] + decimal(x) + seq![':'] + decimal(y)
        + seq![':'] + dir
}

/// The grass walks leaving tile `(x, y)`: towards the east and towards the
/// south neighbour, each when both tiles are walkable grass.
pub open spec fn cell_walks<P>(g: TileGrid<P>, x: int, y: int) -> Seq<(Seq<char>, Seq<P>)> {
    if !g.walkable_grass(x, y) {
        Seq::empty()
    } else {
        let east: Seq<(Seq<char>, Seq<P>)> = if g.walkable_grass(x + 1, y) {
            seq![(grass_link_id(x as nat, y as nat, seq!['e', 'a', 's', 't']), seq![g.center(x, y), g.center(x + 1, y)])]
        } else {
            Seq::empty()
        };
        let south: Seq<(Seq<char>, Seq<P>)> = if g.walkable_grass(x, y + 1) {
            seq![(grass_link_id(x as nat, y as nat, seq!['s', 'o', 'u', 't', 'h']), seq![g.center(x, y), g.center(x, y + 1)])]
        } else {
            Seq::empty()
        };
        east + south
    }
}

/// The grass walks of the first `n` tiles of row `y`.
pub open spec fn row_walks<P>(g: TileGrid<P>, y: int, n: int) -> Seq<(Seq<char>, Seq<P>)>
    decreases n,
{
    if n <= 0 { Seq::empty() } else { row_walks(g, y, n - 1) + cell_walks(g, n - 1, y) }
}

/// The grass walks of the first `n` rows, row by row, west to east.
pub open spec fn grid_walks<P>(g: TileGrid<P>, n: int) -> Seq<(Seq<char>, Seq<P>)>
    decreases n,
{
    if n <= 0 { Seq::empty() } else { grid_walks(g, n - 1) + row_walks(g, n - 1, g.width as int) }
}

/// The walk `link:walk:grass:<x>:<y>:<dir>` from the centre of `(x, y)` to
/// the centre of `(nx, ny)`.
fn grass_walk<P: Copy>(grid: &TileGrid<P>, x: i32, y: i32, dir: &str, nx: i32, ny: i32) -> (r: SeededWalk<P>)
    requires
        grid.well_formed(),
        grid.in_bounds(x as int, y as int),
        grid.in_bounds(nx as int, ny as int),
    ensures
        walk_view(r) == (grass_link_id(x as nat, y as nat, dir@), seq![grid.center(x as int, y as int), grid.center(nx as int, ny as int)]),
{
    proof {
        reveal_strlit("link:walk:grass:");
        reveal_strlit(":");
        assert("link:walk:grass:"@ =~= seq!['l', 'i', 'n', 'k', ':', 'w', 'a', 'l', 'k', ':', 'g', 'r', 'a', 's', 's', ':']);
        assert(":"@ =~= seq![':']);
        lemma_index_in_range(grid.width as int, grid.height as int, x as int, y as int);
        lemma_index_in_range(grid.width as int, grid.height as int, nx as int, ny as int);
    }
    let mut id = prefixed_decimal("link:walk:grass:", x as u64);
    append_text(&mut id, ":");
    append_decimal(&mut id, y as u64);
    append_text(&mut id, ":");
    append_text(&mut id, dir);
    let len = grid.centers.len();
    assert((y as int) * (grid.width as int) + (x as int) < len);
    assert((ny as int) * (grid.width as int) + (nx as int) < len);
    let a = grid.centers[(y as usize) * (grid.width as usize) + (x as usize)];
    let b = grid.centers[(ny as usize) * (grid.width as usize) + (nx as usize)];
    let mut polyline: Vec<P> = Vec::new();
    polyline.push(a);
    polyline.push(b);
    assert(polyline@ =~= seq![a, b]);
    SeededWalk { legacy_link_id: id, polyline }
}

/// Grass footways between neighbouring walkable grass tiles, row by row
/// from the north-west: for each walkable tile, a link east and a link
/// south when that neighbour is walkable too.
pub fn grass_tile_walks<P: Copy>(grid: &TileGrid<P>) -> (r: Vec<SeededWalk<P>>)
    requires
        grid.well_formed(),
    ensures
        walks_view(r@) == grid_walks(*grid, grid.height as int),
{
    proof {
        reveal_strlit("east");
        reveal_strlit("south");
        assert("east"@ =~= seq!['e', 'a', 's', 't']);
        assert("south"@ =~= seq!['s', 'o', 'u', 't', 'h']);
    }
    let mut out: Vec<SeededWalk<P>> = Vec::new();
    let h = grid.height as i32;
    let w = grid.width as i32;
    let mut y: i32 = 0;
    while y < h
        invariant
            grid.well_formed(),
            h == grid.height,
            w == grid.width,
            0 <= y <= h,
            "east"@ == seq!['e', 'a', 's', 't'],
            "south"@ == seq!['s', 'o', 'u', 't', 'h'],
            walks_view(out@) == grid_walks(*grid, y as int),
        decreases h - y,
    {
        let ghost row_start = walks_view(out@);
        let mut x: i32 = 0;
        while x < w
            invariant
                grid.well_formed(),
                h == grid.height,
                w == grid.width,
                0 <= y < h,
                0 <= x <= w,
                "east"@ == seq!['e', 'a', 's', 't'],
                "south"@ == seq!['s', 'o', 'u', 't', 'h'],
                walks_view(out@) == row_start + row_walks(*grid, y as int, x as int),
            decreases w - x,
        {
            let ghost before = walks_view(out@);
            if is_walkable_grass(grid, x, y) {
                if is_walkable_grass(grid, x + 1, y) {
                    let walk = grass_walk(grid, x, y, "east", x + 1, y);
                    out.push(walk);
                }
                let ghost mid = walks_view(out@);
                if is_walkable_grass(grid, x, y + 1) {
                    let walk = grass_walk(grid, x, y, "south", x, y + 1);
                    out.push(walk);
                }
                assert(walks_view(out@) =~= before + cell_walks(*grid, x as int, y as int)) by {
                    assert(mid =~= before + (if grid.walkable_grass(x + 1, y as int) {
                        seq![(grass_link_id(x as nat, y as nat, seq!['e', 'a', 's', 't']), seq![grid.center(x as int, y as int), grid.center(x + 1, y as int)])]
                    } else {
                        Seq::<(Seq<char>, Seq<P>)>::empty()
                    }));
                }
            } else {
                assert(cell_walks(*grid, x as int, y as int) =~= Seq::<(Seq<char>, Seq<P>)>::empty());
                assert(before + cell_walks(*grid, x as int, y as int) =~= before);
            }
            assert(row_start + row_walks(*grid, y as int, x + 1) =~= row_start + row_walks(*grid, y as int, x as int) + cell_walks(*grid, x as int, y as int));
            x = x + 1;
        }
        assert(row_start + row_walks(*grid, y as int, w as int) =~= grid_walks(*grid, y + 1));
        y = y + 1;
    }
    out
}

/// `link:walk:connector:corridor:<i>:<end>`.
pub open spec fn connector_link_id(i: nat, end: Seq<char>) -> Seq<char> {
    seq!['l', 'i', 'n', 'k', ':', 'w', 'a', 'l', 'k', ':', 'c', 'o', 'n', 'n', 'e', 'c', 't', 'o', 'r', ':', 'c', 'o', 'r', 'r', 'i', 'd', 'o', 'r', ':']
        + decimal(i) + seq![':'] + end
}

/// The connector walks of corridor `i` with points `c`, given the grass
/// centre found near its start and near its end (if any): from each
/// endpoint to its grass centre.
pub open spec fn corridor_connectors<P>(i: nat, c: Seq<P>, grass: (Option<P>, Option<P>)) -> Seq<(Seq<char>, Seq<P>)> {
    let start: Seq<(Seq<char>, Seq<P>)> = match grass.0 {
        Some(p) => seq![(connector_link_id(i, seq!['s', 't', 'a', 'r', 't']), seq![c[0], p])],
        None => Seq::empty(),
    };
    let end: Seq<(Seq<char>, Seq<P>)> = match grass.1 {
        Some(p) => seq![(connector_link_id(i, seq!['e', 'n', 'd']), seq![c[c.len() - 1], p])],
        None => Seq::empty(),
    };
    start + end
}

/// The connector walks of the first `n` corridors; corridors of fewer than
/// two points have none.
pub open spec fn connector_walks<P>(corridors: Seq<Seq<P>>, grass: Seq<(Option<P>, Option<P>)>, n: int) -> Seq<(Seq<char>, Seq<P>)>
    decreases n,
{
    if n <= 0 {
        Seq::empty()
    } else if corridors[n - 1].len() < 2 {
        connector_walks(corridors, grass, n - 1)
    } else {
        connector_walks(corridors, grass, n - 1) + corridor_connectors((n - 1) as nat, corridors[n - 1], grass[n - 1])
    }
}

/// The walk `link:walk:connector:corridor:<i>:<end>` from `from` to `to`.
fn connector_walk<P: Copy>(i: usize, end: &str, from: P, to: P) -> (r: SeededWalk<P>)
    ensures
        walk_view(r) == (connector_link_id(i as nat, end@), seq![from, to]),
{
    proof {
        reveal_strlit("link:walk:connector:corridor:");
        reveal_strlit(":");
        assert("link:walk:connector:corridor:"@ =~= seq!['l', 'i', 'n', 'k', ':', 'w', 'a', 'l', 'k', ':', 'c', 'o', 'n', 'n', 'e', 'c', 't', 'o', 'r', ':', 'c', 'o', 'r', 'r', 'i', 'd', 'o', 'r', ':']);
        assert(":"@ =~= seq![':']);
    }
    let mut id = prefixed_decimal("link:walk:connector:corridor:", i as u64);
    append_text(&mut id, ":");
    append_text(&mut id, end);
    let mut polyline: Vec<P> = Vec::new();
    polyline.push(from);
    polyline.push(to);
    assert(polyline@ =~= seq![from, to]);
    SeededWalk { legacy_link_id: id, polyline }
}

/// Walks joining each end of every corridor of two or more points to the
/// grass tile centre found near it: `grass[i]` holds the centres found near
/// the start and the end of corridor `i`.
pub fn sidewalk_grass_connectors<P: Copy>(corridors: &Vec<Vec<P>>, grass: &Vec<(Option<P>, Option<P>)>) -> (r: Vec<SeededWalk<P>>)
    requires
        grass@.len() == corridors@.len(),
    ensures
        walks_view(r@) == connector_walks(corridors@.map_values(|c: Vec<P>| c@), grass@, corridors@.len() as int),
{
    proof {
        reveal_strlit("start");
        reveal_strlit("end");
        assert("start"@ =~= seq!['s', 't', 'a', 'r', 't']);
        assert("end"@ =~= seq!['e', 'n', 'd']);
    }
    let ghost cs = corridors@.map_values(|c: Vec<P>| c@);
    let mut out: Vec<SeededWalk<P>> = Vec::new();
    let n = corridors.len();
    let mut i: usize = 0;
    while i < n
        invariant
            n == corridors@.len(),
            grass@.len() == n,
            cs == corridors@.map_values(|c: Vec<P>| c@),
            "start"@ == seq!['s', 't', 'a', 'r', 't'],
            "end"@ == seq!['e', 'n', 'd'],
            i <= n,
            walks_view(out@) == connector_walks(cs, grass@, i as int),
        decreases n - i,
    {
        let corridor = &corridors[i];
        assert(cs[i as int] == corridor@);
        let m = corridor.len();
        if m >= 2 {
            let ghost before = walks_view(out@);
            let (near_start, near_end) = grass[i];
            if let Some(p) = near_start {
                out.push(connector_walk(i, "start", corridor[0], p));
            }
            let ghost mid = walks_view(out@);
            if let Some(p) = near_end {
                out.push(connector_walk(i, "end", corridor[m - 1], p));
            }
            proof {
                let c = cs[i as int];
                let start: Seq<(Seq<char>, Seq<P>)> = match grass@[i as int].0 {
                    Some(p) => seq![(connector_link_id(i as nat, seq!['s', 't', 'a', 'r', 't']), seq![c[0], p])],
                    None => Seq::empty(),
                };
                assert(mid =~= before + start);
                assert(walks_view(out@) =~= before + corridor_connectors(i as nat, c, grass@[i as int]));
            }
        }
        i = i + 1;
    }
    out
}

/// The walkable grass tiles of row `y` among the first `k` columns of the
/// five centred on `bx`, west to east.
pub open spec fn window_row<P>(g: TileGrid<P>, bx: int, y: int, k: int) -> Seq<(i32, i32)>
    decreases k,
{
    if k <= 0 {
        Seq::empty()
    } else {
        let x = bx - 2 + k - 1;
        window_row(g, bx, y, k - 1) + (if g.walkable_grass(x, y) { seq![(x as i32, y as i32)] } else { Seq::empty() })
    }
}

/// The walkable grass tiles among the first `k` rows of the five-by-five
/// window centred on `(bx, by)`, row by row.
pub open spec fn window_tiles<P>(g: TileGrid<P>, bx: int, by: int, k: int) -> Seq<(i32, i32)>
    decreases k,
{
    if k <= 0 { Seq::empty() } else { window_tiles(g, bx, by, k - 1) + window_row(g, bx, by - 2 + k - 1, 5) }
}

/// The walkable grass tiles within two tiles (in each direction) of tile
/// `(bx, by)`, in scan order: the candidates for the grass centre nearest a
/// point in that tile.
pub fn grass_candidates_near<P>(grid: &TileGrid<P>, bx: i32, by: i32) -> (r: Vec<(i32, i32)>)
    requires
        grid.well_formed(),
        i32::MIN + 2 <= bx <= i32::MAX - 2,
        i32::MIN + 2 <= by <= i32::MAX - 2,
    ensures
        r@ == window_tiles(*grid, bx as int, by as int, 5),
{
    let mut out: Vec<(i32, i32)> = Vec::new();
    let mut k: i32 = 0;
    while k < 5
        invariant
            grid.well_formed(),
            i32::MIN + 2 <= bx <= i32::MAX - 2,
            i32::MIN + 2 <= by <= i32::MAX - 2,
            0 <= k <= 5,
            out@ == window_tiles(*grid, bx as int, by as int, k as int),
        decreases 5 - k,
    {
        let y = by - 2 + k;
        let ghost row_start = out@;
        let mut j: i32 = 0;
        while j < 5
            invariant
                grid.well_formed(),
                i32::MIN + 2 <= bx <= i32::MAX - 2,
                0 <= j <= 5,
                out@ == row_start + window_row(*grid, bx as int, y as int, j as int),
            decreases 5 - j,
        {
            let x = bx - 2 + j;
            let ghost before = out@;
            if is_walkable_grass(grid, x, y) {
                out.push((x, y));
            }
            assert(out@ =~= row_start + window_row(*grid, bx as int, y as int, j + 1));
            j = j + 1;
        }
        assert(out@ =~= window_tiles(*grid, bx as int, by as int, k + 1));
        k = k + 1;
    }
    out
}

/// Pedestrian walks of a base world: the network's corridor walks, then
/// the grass footways, then the connectors from corridor ends to nearby
/// grass, where `connector_grass[i]` holds the grass centres found near the
/// start and the end of corridor `i`.
pub fn seeded_walks_from_base_world<P: Copy>(world: &BaseWorld<P>, connector_grass: &Vec<(Option<P>, Option<P>)>) -> (r: Vec<SeededWalk<P>>)
    requires
        world.tiles.well_formed(),
        connector_grass@.len() == world.network.pedestrian_corridors@.len(),
    ensures
        walks_view(r@) == corridor_walks(corridors_view(world.network), world.network.pedestrian_corridors@.len() as int)
            + grid_walks(world.tiles, world.tiles.height as int)
            + connector_walks(corridors_view(world.network), connector_grass@, world.network.pedestrian_corridors@.len() as int),
{
    let mut out = seeded_walks_from_network(&world.network);
    let grass = grass_tile_walks(&world.tiles);
    let connectors = sidewalk_grass_connectors(&world.network.pedestrian_corridors, connector_grass);
    append_walks(&mut out, grass);
    append_walks(&mut out, connectors);
    out
}

/// Moves the walks of `more` to the end of `out`.
fn append_walks<P>(out: &mut Vec<SeededWalk<P>>, more: Vec<SeededWalk<P>>)
    ensures
        walks_view(final(out)@) == walks_view(old(out)@) + walks_view(more@),
{
    let mut more = more;
    let ghost orig = old(out)@;
    let ghost rest = more@;
    out.append(&mut more);
    assert(out@ =~= orig + rest);
    assert(walks_view(orig + rest) =~= walks_view(orig) + walks_view(rest));
}

/// A walking agent to seed. Its progress along the link is the fractional
/// part of `index / count`.
#[derive(Debug, Clone, PartialEq, Eq)]
pub struct PedestrianSeed {
    pub agent_id: AgentId,
    pub link_id: String,
    pub plan: Vec<PlanStage>,
    /// Whether the plan starts over after its last stage.
    pub cyclic: bool,
    pub index: u32,
    pub count: u32,
}

/// A car to seed with its driver aboard. Its progress along the first link
/// of its route is `index / count`.
#[derive(Debug, Clone, PartialEq, Eq)]
pub struct CarSeed {
    pub vehicle_id: VehicleId,
    pub route_id: String,
    pub driver_id: AgentId,
    /// The single activity of the driver's plan.
    pub driver_activity_id: String,
    pub index: u32,
    pub count: u32,
}

/// A base-world group of pedestrians to seed on a corridor.
#[derive(Debug, Clone, PartialEq, Eq)]
pub struct PedestrianSpawnGroup {
    pub id: String,
    pub corridor_id: String,
    pub agents_per_corridor: u32,
}

/// A base-world group of cars to seed on an arterial path.
#[derive(Debug, Clone, PartialEq, Eq)]
pub struct CarSpawnGroup {
    pub id: String,
    pub arterial_id: String,
    pub cars_per_arterial: u32,
}

/// `<prefix><n>` for a literal prefix.
pub open spec fn numbered(prefix: Seq<char>, n: nat) -> Seq<char> {
    prefix + decimal(n)
}

/// `agent:walk:`.
pub open spec fn agent_walk_prefix() -> Seq<char> {
    seq!['a', 'g', 'e', 'n', 't', ':', 'w', 'a', 'l', 'k', ':']
}

/// `activity:wander:`.
pub open spec fn wander_prefix() -> Seq<char> {
    seq!['a', 'c', 't', 'i', 'v', 'i', 't', 'y', ':', 'w', 'a', 'n', 'd', 'e', 'r', ':']
}

/// `agent:driver:`.
pub open spec fn driver_prefix() -> Seq<char> {
    seq!['a', 'g', 'e', 'n', 't', ':', 'd', 'r', 'i', 'v', 'e', 'r', ':']
}

/// `route:arterial:`.
pub open spec fn arterial_route_prefix() -> Seq<char> {
    seq!['r', 'o', 'u', 't', 'e', ':', 'a', 'r', 't', 'e', 'r', 'i', 'a', 'l', ':']
}

/// `activity:drive:`.
pub open spec fn drive_prefix() -> Seq<char> {
    seq!['a', 'c', 't', 'i', 'v', 'i', 't', 'y', ':', 'd', 'r', 'i', 'v', 'e', ':']
}

/// `vehicle:car:<a>:<n>`.
pub open spec fn car_vehicle_id(a: nat, n: nat) -> Seq<char> {
    seq!['v', 'e', 'h', 'i', 'c', 'l', 'e', ':', 'c', 'a', 'r', ':'] + decimal(a) + seq![':'] + decimal(n)
}

/// `activity:home`.
pub open spec fn home_activity() -> Seq<char> {
    seq!['a', 'c', 't', 'i', 'v', 'i', 't', 'y', ':', 'h', 'o', 'm', 'e']
}

/// `activity:destination`.
pub open spec fn destination_activity() -> Seq<char> {
    seq!['a', 'c', 't', 'i', 'v', 'i', 't', 'y', ':', 'd', 'e', 's', 't', 'i', 'n', 'a', 't', 'i', 'o', 'n']
}

/// Whether `seed` is the `n`-th wanderer of a network: it walks corridor
/// `n % corridors` with a single wandering activity, placed by `n` of `per`.
pub open spec fn is_network_wanderer(seed: PedestrianSeed, n: nat, corridors: nat, per: nat) -> bool {
    let ci = n % corridors;
    &&& seed.agent_id@ == numbered(agent_walk_prefix(), n)
    &&& seed.link_id@ == corridor_link_id(ci)
    &&& seed.plan@.len() == 1
    &&& seed.plan@[0] matches PlanStage::Activity { activity_id } && activity_id@ == numbered(wander_prefix(), ci)
    &&& !seed.cyclic
    &&& seed.index == n
    &&& seed.count == per
}

/// Whether `seed` is the `n`-th car (of `per`) on arterial `a`, driven by
/// driver number `k`.
pub open spec fn is_arterial_car(seed: CarSeed, a: nat, n: nat, per: nat, k: nat) -> bool {
    &&& seed.vehicle_id@ == car_vehicle_id(a, n)
    &&& seed.route_id@ == numbered(arterial_route_prefix(), a)
    &&& seed.driver_id@ == numbered(driver_prefix(), k)
    &&& seed.driver_activity_id@ == numbered(drive_prefix(), a)
    &&& seed.index == n
    &&& seed.count == per
}

/// The walking agent numbered `n` on corridor `corridor`.
fn wanderer(n: u32, corridor: u32, per: u32) -> (r: PedestrianSeed)
    ensures
        r.agent_id@ == numbered(agent_walk_prefix(), n as nat),
        r.link_id@ == corridor_link_id(corridor as nat),
        r.plan@.len() == 1,
        r.plan@[0] matches PlanStage::Activity { activity_id } && activity_id@ == numbered(wander_prefix(), corridor as nat),
        !r.cyclic,
        r.index == n,
        r.count == per,
{
    proof {
        reveal_strlit("agent:walk:");
        reveal_strlit("link:walk:corridor:");
        reveal_strlit("activity:wander:");
        assert("agent:walk:"@ =~= agent_walk_prefix());
        assert("link:walk:corridor:"@ =~= seq!['l', 'i', 'n', 'k', ':', 'w', 'a', 'l', 'k', ':', 'c', 'o', 'r', 'r', 'i', 'd', 'o', 'r', ':']);
        assert("activity:wander:"@ =~= wander_prefix());
    }
    let agent_id = AgentId(prefixed_decimal("agent:walk:", n as u64));
    let link_id = prefixed_decimal("link:walk:corridor:", corridor as u64);
    let activity_id = prefixed_decimal("activity:wander:", corridor as u64);
    let mut plan: Vec<PlanStage> = Vec::new();
    plan.push(PlanStage::Activity { activity_id });
    PedestrianSeed { agent_id, link_id, plan, cyclic: false, index: n, count: per }
}

/// The `n`-th car (of `per`) on arterial `a`, driven by driver number `k`.
fn arterial_car(a: u32, n: u32, per: u32, k: u32) -> (r: CarSeed)
    ensures
        is_arterial_car(r, a as nat, n as nat, per as nat, k as nat),
{
    proof {
        reveal_strlit("vehicle:car:");
        reveal_strlit(":");
        reveal_strlit("route:arterial:");
        reveal_strlit("agent:driver:");
        reveal_strlit("activity:drive:");
        assert("vehicle:car:"@ =~= seq!['v', 'e', 'h', 'i', 'c', 'l', 'e', ':', 'c', 'a', 'r', ':']);
        assert(":"@ =~= seq![':']);
        assert("route:arterial:"@ =~= arterial_route_prefix());
        assert("agent:driver:"@ =~= driver_prefix());
        assert("activity:drive:"@ =~= drive_prefix());
    }
    let mut vehicle = prefixed_decimal("vehicle:car:", a as u64);
    append_text(&mut vehicle, ":");
    append_decimal(&mut vehicle, n as u64);
    CarSeed {
        vehicle_id: VehicleId(vehicle),
        route_id: prefixed_decimal("route:arterial:", a as u64),
        driver_id: AgentId(prefixed_decimal("agent:driver:", k as u64)),
        driver_activity_id: prefixed_decimal("activity:drive:", a as u64),
        index: n,
        count: per,
    }
}

/// The wandering pedestrians of a network seeded at `density`: as many per
/// corridor as the density says, handed out round-robin over the
/// corridors (none when there is no corridor).
pub fn network_pedestrians(corridors: u32, density: SeedDensity) -> (r: Vec<PedestrianSeed>)
    requires
        corridors * density.pedestrians_per_corridor <= u32::MAX,
    ensures
        corridors == 0 ==> r@.len() == 0,
        corridors > 0 ==> r@.len() == corridors * density.pedestrians_per_corridor,
        corridors > 0 ==> forall|n: int| 0 <= n < r@.len() ==>
            is_network_wanderer(#[trigger] r@[n], n as nat, corridors as nat, density.pedestrians_per_corridor as nat),
{
    let mut out: Vec<PedestrianSeed> = Vec::new();
    if corridors == 0 {
        return out;
    }
    let per = density.pedestrians_per_corridor;
    let total = corridors * per;
    let mut n: u32 = 0;
    while n < total
        invariant
            corridors > 0,
            total == corridors * per,
            per == density.pedestrians_per_corridor,
            n <= total,
            out@.len() == n,
            forall|m: int| 0 <= m < n ==> is_network_wanderer(#[trigger] out@[m], m as nat, corridors as nat, per as nat),
        decreases total - n,
    {
        let seed = wanderer(n, n % corridors, per);
        out.push(seed);
        n = n + 1;
    }
    out
}

/// The cars of a network with `arterials` arterial paths seeded at
/// `density`: as many per arterial as the density says, arterial by
/// arterial, drivers numbered in order.
pub fn network_cars(arterials: u32, density: SeedDensity) -> (r: Vec<CarSeed>)
    requires
        arterials * density.cars_per_arterial <= u32::MAX,
    ensures
        r@.len() == arterials * density.cars_per_arterial,
        forall|a: int, n: int| 0 <= a < arterials && 0 <= n < density.cars_per_arterial ==>
            is_arterial_car(#[trigger] r@[a * density.cars_per_arterial + n], a as nat, n as nat,
                density.cars_per_arterial as nat, (a * density.cars_per_arterial + n) as nat),
{
    let per = density.cars_per_arterial;
    let mut out: Vec<CarSeed> = Vec::new();
    let mut a: u32 = 0;
    while a < arterials
        invariant
            per == density.cars_per_arterial,
            arterials * per <= u32::MAX,
            a <= arterials,
            out@.len() == a * per,
            forall|b: int, n: int| 0 <= b < a && 0 <= n < per ==>
                is_arterial_car(#[trigger] out@[b * per + n], b as nat, n as nat, per as nat, (b * per + n) as nat),
        decreases arterials - a,
    {
        proof {
            assert(a * per + per <= arterials * per) by (nonlinear_arith)
                requires a < arterials;
        }
        let mut n: u32 = 0;
        while n < per
            invariant
                per == density.cars_per_arterial,
                arterials * per <= u32::MAX,
                a < arterials,
                a * per + per <= arterials * per,
                n <= per,
                out@.len() == a * per + n,
                forall|b: int, m: int| 0 <= b < a && 0 <= m < per ==>
                    is_arterial_car(#[trigger] out@[b * per + m], b as nat, m as nat, per as nat, (b * per + m) as nat),
                forall|m: int| 0 <= m < n ==>
                    is_arterial_car(#[trigger] out@[a * per + m], a as nat, m as nat, per as nat, (a * per + m) as nat),
            decreases per - n,
        {
            let k = a * per + n;
            let ghost before = out@;
            out.push(arterial_car(a, n, per, k));
            proof {
                assert forall|b: int, m: int| 0 <= b < a && 0 <= m < per implies
                    is_arterial_car(#[trigger] out@[b * per + m], b as nat, m as nat, per as nat, (b * per + m) as nat) by {
                    assert(b * per + m < a * per) by (nonlinear_arith)
                        requires 0 <= b < a, 0 <= m < per;
                    assert(out@[b * per + m] == before[b * per + m]);
                }
                assert forall|m: int| 0 <= m < n + 1 implies
                    is_arterial_car(#[trigger] out@[a * per + m], a as nat, m as nat, per as nat, (a * per + m) as nat) by {
                    if m < n {
                        assert(out@[a * per + m] == before[a * per + m]);
                    }
                }
            }
            n = n + 1;
        }
        proof {
            assert forall|b: int, m: int| 0 <= b < a + 1 && 0 <= m < per implies
                is_arterial_car(#[trigger] out@[b * per + m], b as nat, m as nat, per as nat, (b * per + m) as nat) by {
                if b == a {
                    assert(out@[a * per + m] == out@[b * per + m]);
                }
            }
            assert((a + 1) * per == a * per + per) by (nonlinear_arith);
        }
        a = a + 1;
    }
    out
}

/// The first index at or after `i` at which `ids` holds `id`.
pub open spec fn position_from(ids: Seq<Seq<char>>, id: Seq<char>, i: int) -> Option<nat>
    decreases ids.len() - i,
{
    if i < 0 || i >= ids.len() {
        None
    } else if ids[i] == id {
        Some(i as nat)
    } else {
        position_from(ids, id, i + 1)
    }
}

/// The character views of a list of strings.
pub open spec fn names(v: Seq<String>) -> Seq<Seq<char>> {
    v.map_values(|s: String| s@)
}

/// The first index of `ids` holding `id`.
fn position(ids: &Vec<String>, id: &str) -> (r: Option<usize>)
    ensures
        match r {
            Some(i) => position_from(names(ids@), id@, 0) == Some(i as nat),
            None => position_from(names(ids@), id@, 0) is None,
        },
{
    let mut i: usize = 0;
    while i < ids.len()
        invariant
            i <= ids@.len(),
            position_from(names(ids@), id@, 0) == position_from(names(ids@), id@, i as int),
        decreases ids@.len() - i,
    {
        if str_equal(ids[i].as_str(), id) {
            return Some(i);
        }
        i = i + 1;
    }
    None
}

/// The number of pedestrians of the first `g` groups.
pub open spec fn pedestrians_before(groups: Seq<PedestrianSpawnGroup>, g: int) -> nat
    decreases g,
{
    if g <= 0 { 0 } else { pedestrians_before(groups, g - 1) + groups[g - 1].agents_per_corridor as nat }
}

/// The first of the first `g` groups whose corridor is not among `ids`.
pub open spec fn first_missing_corridor(ids: Seq<Seq<char>>, groups: Seq<PedestrianSpawnGroup>, g: int) -> Option<int>
    decreases g,
{
    if g <= 0 {
        None
    } else {
        match first_missing_corridor(ids, groups, g - 1) {
            Some(x) => Some(x),
            None => if position_from(ids, groups[g - 1].corridor_id@, 0) is None { Some(g - 1) } else { None },
        }
    }
}

/// Whether `seed` is base-world walker number `k`: on corridor `ci`, going
/// home and to its destination and back, placed by `n` of `count`.
pub open spec fn is_bundle_walker(seed: PedestrianSeed, k: nat, ci: nat, n: nat, count: nat) -> bool {
    let link = corridor_link_id(ci);
    &&& seed.agent_id@ == numbered(agent_walk_prefix(), k)
    &&& seed.link_id@ == link
    &&& seed.plan@.len() == 2
    &&& seed.plan@[0] matches PlanStage::WalkToActivity { link_id, activity_id } && link_id@ == link && activity_id@ == home_activity()
    &&& seed.plan@[1] matches PlanStage::WalkToActivity { link_id, activity_id } && link_id@ == link && activity_id@ == destination_activity()
    &&& seed.cyclic
    &&& seed.index == n
    &&& seed.count == count
}

/// Base-world walker number `k` on corridor `ci`, placed by `n` of `count`.
fn bundle_walker(k: u32, ci: usize, n: u32, count: u32) -> (r: PedestrianSeed)
    ensures
        is_bundle_walker(r, k as nat, ci as nat, n as nat, count as nat),
{
    proof {
        reveal_strlit("agent:walk:");
        reveal_strlit("link:walk:corridor:");
        reveal_strlit("activity:home");
        reveal_strlit("activity:destination");
        assert("agent:walk:"@ =~= agent_walk_prefix());
        assert("link:walk:corridor:"@ =~= seq!['l', 'i', 'n', 'k', ':', 'w', 'a', 'l', 'k', ':', 'c', 'o', 'r', 'r', 'i', 'd', 'o', 'r', ':']);
        assert("activity:home"@ =~= home_activity());
        assert("activity:destination"@ =~= destination_activity());
    }
    let link_id = prefixed_decimal("link:walk:corridor:", ci as u64);
    let mut plan: Vec<PlanStage> = Vec::new();
    plan.push(PlanStage::WalkToActivity { link_id: link_id.clone(), activity_id: String::from_str("activity:home") });
    plan.push(PlanStage::WalkToActivity { link_id: link_id.clone(), activity_id: String::from_str("activity:destination") });
    PedestrianSeed {
        agent_id: AgentId(prefixed_decimal("agent:walk:", k as u64)),
        link_id,
        plan,
        cyclic: true,
        index: n,
        count,
    }
}

/// The walkers of a base world's pedestrian groups, group by group, with
/// agents numbered across groups; each group walks the corridor (among
/// `corridor_ids`) it names. Fails on the first group whose corridor does
/// not exist.
pub fn bundle_pedestrians(corridor_ids: &Vec<String>, groups: &Vec<PedestrianSpawnGroup>) -> (r: Result<Vec<PedestrianSeed>, SeedError>)
    requires
        pedestrians_before(groups@, groups@.len() as int) <= u32::MAX,
    ensures
        match first_missing_corridor(names(corridor_ids@), groups@, groups@.len() as int) {
            Some(g) => r matches Err(SeedError::MissingPedestrianCorridor { group_id, corridor_id })
                && group_id@ == groups@[g].id@ && corridor_id@ == groups@[g].corridor_id@,
            None => r matches Ok(v) && v@.len() == pedestrians_before(groups@, groups@.len() as int)
                && forall|g: int, n: int| 0 <= g < groups@.len() && 0 <= n < groups@[g].agents_per_corridor ==>
                    is_bundle_walker(#[trigger] v@[pedestrians_before(groups@, g) + n], (pedestrians_before(groups@, g) + n) as nat,
                        position_from(names(corridor_ids@), groups@[g].corridor_id@, 0)->0, n as nat,
                        groups@[g].agents_per_corridor as nat),
        },
{
    let ghost ids = names(corridor_ids@);
    let mut out: Vec<PedestrianSeed> = Vec::new();
    let mut k: u32 = 0;
    let mut g: usize = 0;
    while g < groups.len()
        invariant
            ids == names(corridor_ids@),
            g <= groups@.len(),
            pedestrians_before(groups@, groups@.len() as int) <= u32::MAX,
            first_missing_corridor(ids, groups@, g as int) is None,
            k == pedestrians_before(groups@, g as int),
            out@.len() == k,
            forall|h: int, n: int| 0 <= h < g && 0 <= n < groups@[h].agents_per_corridor ==>
                is_bundle_walker(#[trigger] out@[pedestrians_before(groups@, h) + n], (pedestrians_before(groups@, h) + n) as nat,
                    position_from(ids, groups@[h].corridor_id@, 0)->0, n as nat, groups@[h].agents_per_corridor as nat),
        decreases groups@.len() - g,
    {
        proof { lemma_pedestrians_before_monotone(groups@, g as int + 1, groups@.len() as int); }
        let group = &groups[g];
        let ci = match position(corridor_ids, group.corridor_id.as_str()) {
            Some(ci) => ci,
            None => {
                proof { lemma_first_missing_stays(ids, groups@, g as int + 1, groups@.len() as int); }
                return Err(SeedError::MissingPedestrianCorridor { group_id: group.id.clone(), corridor_id: group.corridor_id.clone() });
            },
        };
        let count = group.agents_per_corridor;
        let ghost base = k as int;
        let mut n: u32 = 0;
        while n < count
            invariant
                ids == names(corridor_ids@),
                g < groups@.len(),
                count == groups@[g as int].agents_per_corridor,
                base == pedestrians_before(groups@, g as int),
                base + count <= u32::MAX,
                position_from(ids, groups@[g as int].corridor_id@, 0) == Some(ci as nat),
                n <= count,
                k == base + n,
                out@.len() == k,
                forall|h: int, m: int| 0 <= h < g && 0 <= m < groups@[h].agents_per_corridor ==>
                    is_bundle_walker(#[trigger] out@[pedestrians_before(groups@, h) + m], (pedestrians_before(groups@, h) + m) as nat,
                        position_from(ids, groups@[h].corridor_id@, 0)->0, m as nat, groups@[h].agents_per_corridor as nat),
                forall|m: int| 0 <= m < n ==>
                    is_bundle_walker(#[trigger] out@[base + m], (base + m) as nat, ci as nat, m as nat, count as nat),
            decreases count - n,
        {
            let ghost before = out@;
            out.push(bundle_walker(k, ci, n, count));
            proof {
                assert forall|h: int, m: int| 0 <= h < g && 0 <= m < groups@[h].agents_per_corridor implies
                    is_bundle_walker(#[trigger] out@[pedestrians_before(groups@, h) + m], (pedestrians_before(groups@, h) + m) as nat,
                        position_from(ids, groups@[h].corridor_id@, 0)->0, m as nat, groups@[h].agents_per_corridor as nat) by {
                    lemma_pedestrians_before_monotone(groups@, h + 1, g as int);
                    assert(out@[pedestrians_before(groups@, h) + m] == before[pedestrians_before(groups@, h) + m]);
                }
                assert forall|m: int| 0 <= m < n + 1 implies
                    is_bundle_walker(#[trigger] out@[base + m], (base + m) as nat, ci as nat, m as nat, count as nat) by {
                    if m < n {
                        assert(out@[base + m] == before[base + m]);
                    }
                }
            }
            k = k + 1;
            n = n + 1;
        }
        proof {
            assert forall|h: int, m: int| 0 <= h < g + 1 && 0 <= m < groups@[h].agents_per_corridor implies
                is_bundle_walker(#[trigger] out@[pedestrians_before(groups@, h) + m], (pedestrians_before(groups@, h) + m) as nat,
                    position_from(ids, groups@[h].corridor_id@, 0)->0, m as nat, groups@[h].agents_per_corridor as nat) by {
                if h == g {
                    assert(out@[base + m] == out@[pedestrians_before(groups@, h) + m]);
                }
            }
        }
        g = g + 1;
    }
    Ok(out)
}

/// The pedestrian count only grows with more groups.
proof fn lemma_pedestrians_before_monotone(groups: Seq<PedestrianSpawnGroup>, a: int, b: int)
    requires
        a <= b,
    ensures
        pedestrians_before(groups, a) <= pedestrians_before(groups, b),
    decreases b - a,
{
    if a < b {
        lemma_pedestrians_before_monotone(groups, a, b - 1);
    }
}

/// Once a group misses its corridor, it stays the first that does.
proof fn lemma_first_missing_stays(ids: Seq<Seq<char>>, groups: Seq<PedestrianSpawnGroup>, a: int, b: int)
    requires
        0 < a <= b,
        first_missing_corridor(ids, groups, a) is Some,
    ensures
        first_missing_corridor(ids, groups, b) == first_missing_corridor(ids, groups, a),
    decreases b - a,
{
    if a < b {
        lemma_first_missing_stays(ids, groups, a, b - 1);
    }
}

/// The number of cars of the first `g` groups.
pub open spec fn cars_before(groups: Seq<CarSpawnGroup>, g: int) -> nat
    decreases g,
{
    if g <= 0 { 0 } else { cars_before(groups, g - 1) + groups[g - 1].cars_per_arterial as nat }
}

/// The first of the first `g` groups whose arterial path is not among `ids`.
pub open spec fn first_missing_arterial(ids: Seq<Seq<char>>, groups: Seq<CarSpawnGroup>, g: int) -> Option<int>
    decreases g,
{
    if g <= 0 {
        None
    } else {
        match first_missing_arterial(ids, groups, g - 1) {
            Some(x) => Some(x),
            None => if position_from(ids, groups[g - 1].arterial_id@, 0) is None { Some(g - 1) } else { None },
        }
    }
}

/// The cars of a base world's car groups, group by group, with drivers
/// numbered across groups; each group drives the arterial path (among
/// `arterial_ids`) it names. Fails on the first group whose arterial path
/// does not exist.
pub fn bundle_cars(arterial_ids: &Vec<String>, groups: &Vec<CarSpawnGroup>) -> (r: Result<Vec<CarSeed>, SeedError>)
    requires
        cars_before(groups@, groups@.len() as int) <= u32::MAX,
        arterial_ids@.len() <= u32::MAX,
    ensures
        match first_missing_arterial(names(arterial_ids@), groups@, groups@.len() as int) {
            Some(g) => r matches Err(SeedError::MissingArterialPath { group_id, arterial_id })
                && group_id@ == groups@[g].id@ && arterial_id@ == groups@[g].arterial_id@,
            None => r matches Ok(v) && v@.len() == cars_before(groups@, groups@.len() as int)
                && forall|g: int, n: int| 0 <= g < groups@.len() && 0 <= n < groups@[g].cars_per_arterial ==>
                    is_arterial_car(#[trigger] v@[cars_before(groups@, g) + n],
                        position_from(names(arterial_ids@), groups@[g].arterial_id@, 0)->0, n as nat,
                        groups@[g].cars_per_arterial as nat, (cars_before(groups@, g) + n) as nat),
        },
{
    let ghost ids = names(arterial_ids@);
    let mut out: Vec<CarSeed> = Vec::new();
    let mut k: u32 = 0;
    let mut g: usize = 0;
    while g < groups.len()
        invariant
            ids == names(arterial_ids@),
            arterial_ids@.len() <= u32::MAX,
            g <= groups@.len(),
            cars_before(groups@, groups@.len() as int) <= u32::MAX,
            first_missing_arterial(ids, groups@, g as int) is None,
            k == cars_before(groups@, g as int),
            out@.len() == k,
            forall|h: int, n: int| 0 <= h < g && 0 <= n < groups@[h].cars_per_arterial ==>
                is_arterial_car(#[trigger] out@[cars_before(groups@, h) + n], position_from(ids, groups@[h].arterial_id@, 0)->0,
                    n as nat, groups@[h].cars_per_arterial as nat, (cars_before(groups@, h) + n) as nat),
        decreases groups@.len() - g,
    {
        proof { lemma_cars_before_monotone(groups@, g as int + 1, groups@.len() as int); }
        let group = &groups[g];
        let ai = match position(arterial_ids, group.arterial_id.as_str()) {
            Some(ai) => ai,
            None => {
                proof { lemma_first_missing_arterial_stays(ids, groups@, g as int + 1, groups@.len() as int); }
                return Err(SeedError::MissingArterialPath { group_id: group.id.clone(), arterial_id: group.arterial_id.clone() });
            },
        };
        proof { lemma_position_in_range(ids, group.arterial_id@, 0); }
        let count = group.cars_per_arterial;
        let ghost base = k as int;
        let mut n: u32 = 0;
        while n < count
            invariant
                ids == names(arterial_ids@),
                g < groups@.len(),
                (ai as int) < ids.len(),
                ids.len() <= u32::MAX,
                count == groups@[g as int].cars_per_arterial,
                base == cars_before(groups@, g as int),
                base + count <= u32::MAX,
                position_from(ids, groups@[g as int].arterial_id@, 0) == Some(ai as nat),
                n <= count,
                k == base + n,
                out@.len() == k,
                forall|h: int, m: int| 0 <= h < g && 0 <= m < groups@[h].cars_per_arterial ==>
                    is_arterial_car(#[trigger] out@[cars_before(groups@, h) + m], position_from(ids, groups@[h].arterial_id@, 0)->0,
                        m as nat, groups@[h].cars_per_arterial as nat, (cars_before(groups@, h) + m) as nat),
                forall|m: int| 0 <= m < n ==>
                    is_arterial_car(#[trigger] out@[base + m], ai as nat, m as nat, count as nat, (base + m) as nat),
            decreases count - n,
        {
            let ghost before = out@;
            out.push(arterial_car(ai as u32, n, count, k));
            proof {
                assert forall|h: int, m: int| 0 <= h < g && 0 <= m < groups@[h].cars_per_arterial implies
                    is_arterial_car(#[trigger] out@[cars_before(groups@, h) + m], position_from(ids, groups@[h].arterial_id@, 0)->0,
                        m as nat, groups@[h].cars_per_arterial as nat, (cars_before(groups@, h) + m) as nat) by {
                    lemma_cars_before_monotone(groups@, h + 1, g as int);
                    assert(out@[cars_before(groups@, h) + m] == before[cars_before(groups@, h) + m]);
                }
                assert forall|m: int| 0 <= m < n + 1 implies
                    is_arterial_car(#[trigger] out@[base + m], ai as nat, m as nat, count as nat, (base + m) as nat) by {
                    if m < n {
                        assert(out@[base + m] == before[base + m]);
                    }
                }
            }
            k = k + 1;
            n = n + 1;
        }
        proof {
            assert forall|h: int, m: int| 0 <= h < g + 1 && 0 <= m < groups@[h].cars_per_arterial implies
                is_arterial_car(#[trigger] out@[cars_before(groups@, h) + m], position_from(ids, groups@[h].arterial_id@, 0)->0,
                    m as nat, groups@[h].cars_per_arterial as nat, (cars_before(groups@, h) + m) as nat) by {
                if h == g {
                    assert(out@[base + m] == out@[cars_before(groups@, h) + m]);
                }
            }
        }
        g = g + 1;
    }
    Ok(out)
}

/// A found position lies inside the list.
proof fn lemma_position_in_range(ids: Seq<Seq<char>>, id: Seq<char>, i: int)
    requires
        0 <= i,
    ensures
        match position_from(ids, id, i) {
            Some(p) => i <= p < ids.len(),
            None => true,
        },
    decreases ids.len() - i,
{
    if i < ids.len() {
        lemma_position_in_range(ids, id, i + 1);
    }
}

/// The car count only grows with more groups.
proof fn lemma_cars_before_monotone(groups: Seq<CarSpawnGroup>, a: int, b: int)
    requires
        a <= b,
    ensures
        cars_before(groups, a) <= cars_before(groups, b),
    decreases b - a,
{
    if a < b {
        lemma_cars_before_monotone(groups, a, b - 1);
    }
}

/// Once a group misses its arterial path, it stays the first that does.
proof fn lemma_first_missing_arterial_stays(ids: Seq<Seq<char>>, groups: Seq<CarSpawnGroup>, a: int, b: int)
    requires
        0 < a <= b,
        first_missing_arterial(ids, groups, a) is Some,
    ensures
        first_missing_arterial(ids, groups, b) == first_missing_arterial(ids, groups, a),
    decreases b - a,
{
    if a < b {
        lemma_first_missing_arterial_stays(ids, groups, a, b - 1);
    }
}

} // verus!

use vstd::prelude::*;
use bevy_turborand::RngComponent;
use crate::distance::{connected_from, distances, finite, reached_set, sealed, DistanceMap, UNREACHABLE};
use vstd::set_lib::{lemma_int_range, lemma_len_subset, set_int_range};
use crate::grid::{Grid, TileKind, dimensions_fit};
use crate::position::{Position, index_of, lemma_index_in_range};
use crate::rng::draw_below;

verus! {

/// The layout strategies.
#[derive(Clone, Copy, PartialEq, Eq, Structural, Debug)]
pub enum Architect {
    /// Every tile is Floor.
    Empty,
    /// Rectangular rooms joined by corridors.
    Standard,
    /// Cave-like noise smoothed by a majority rule.
    Automata,
    /// Random walks carved out from the centre.
    Drunkard,
}

/// How a level is to be generated.
#[derive(Clone, Copy, PartialEq, Eq, Structural, Debug)]
pub struct ArchitectSettings {
    pub architect: Architect,
    pub num_monsters: usize,
    pub num_items: usize,
    pub num_npcs: usize,
    /// Spawns must be further than this many steps from the player start.
    pub entity_distance: usize,
}

/// An axis-aligned rectangle of tiles.
#[derive(Clone, Copy, PartialEq, Eq, Structural, Debug)]
pub struct Room {
    pub x: usize,
    pub y: usize,
    pub width: usize,
    pub height: usize,
}

impl Room {
    /// The room lies inside a `w` by `h` map and is not empty.
    pub open spec fn inside(&self, w: int, h: int) -> bool {
        &&& 0 < self.width
        &&& 0 < self.height
        &&& self.x + self.width <= w
        &&& self.y + self.height <= h
    }

    pub open spec fn overlaps_spec(&self, o: Room) -> bool {
        &&& self.x < o.x + o.width
        &&& o.x < self.x + self.width
        &&& self.y < o.y + o.height
        &&& o.y < self.y + self.height
    }

    pub open spec fn center_spec(&self) -> Position {
        Position {
            x: (self.x + self.width / 2) as i32,
            y: (self.y + self.height / 2) as i32,
        }
    }

    /// Whether the two rooms share a tile.
    pub fn overlaps(&self, o: &Room) -> (r: bool)
        requires
            self.x + self.width <= usize::MAX,
            self.y + self.height <= usize::MAX,
            o.x + o.width <= usize::MAX,
            o.y + o.height <= usize::MAX,
        ensures
            r == self.overlaps_spec(*o),
    {
        self.x < o.x + o.width && o.x < self.x + self.width && self.y < o.y + o.height && o.y
            < self.y + self.height
    }

    /// The middle tile of the room.
    pub fn center(&self) -> (r: Position)
        requires
            self.x + self.width <= i32::MAX,
            self.y + self.height <= i32::MAX,
        ensures
            r == self.center_spec(),
    {
        Position { x: (self.x + self.width / 2) as i32, y: (self.y + self.height / 2) as i32 }
    }
}

/// What a strategy produces: the tiles, the rooms it laid out, and where the player starts.
pub struct Layout {
    pub grid: Grid,
    pub rooms: Vec<Room>,
    pub start: Position,
}

impl Layout {
    pub open spec fn wf(&self, width: int, height: int) -> bool {
        &&& self.grid.wf()
        &&& self.grid.width == width
        &&& self.grid.height == height
        &&& self.grid.enterable(self.start)
        &&& forall|k: int| 0 <= k < self.rooms@.len() ==> #[trigger] self.rooms@[k].inside(width, height)
    }
}

/// The dimensions that a generator accepts.
pub open spec fn dims_ok(width: int, height: int) -> bool {
    0 < width && 0 < height && dimensions_fit(width, height)
}

/// The centre tile of a `width` by `height` map.
pub open spec fn center_of(width: int, height: int) -> Position {
    Position { x: (width / 2) as i32, y: (height / 2) as i32 }
}

/// A grid of one kind of tile.
fn filled(width: usize, height: usize, fill: TileKind) -> (g: Grid)
    requires
        dims_ok(width as int, height as int),
    ensures
        g.wf(),
        g.width == width,
        g.height == height,
        forall|i: int| 0 <= i < g.size() ==> g.tiles@[i] == fill,
{
    match Grid::new(width, height, fill) {
        Ok(g) => g,
        Err(_) => {
            proof {
                assert(false);
            }
            Grid { width, height, tiles: Vec::new() }
        },
    }
}

/// Every Floor tile of `g0` is still Floor in `g1`, and the dimensions are kept.
pub open spec fn floor_kept(g0: Grid, g1: Grid) -> bool {
    &&& g1.wf()
    &&& g1.width == g0.width
    &&& g1.height == g0.height
    &&& forall|i: int| #[trigger] g0.is_floor(i) ==> g1.is_floor(i)
}

/// Every tile of the `w` by `h` rectangle at `(x, y)` is Floor.
pub open spec fn rect_floor(g: Grid, x: int, y: int, w: int, h: int) -> bool {
    forall|a: int, b: int|
        x <= a < x + w && y <= b < y + h ==> #[trigger] g.enterable_at(a, b)
}

/// Turns the `w` by `h` rectangle at `(x, y)` into Floor.
pub fn carve_rect(g: &mut Grid, x: usize, y: usize, w: usize, h: usize)
    requires
        old(g).wf(),
        x + w <= old(g).width,
        y + h <= old(g).height,
    ensures
        floor_kept(*old(g), *final(g)),
        rect_floor(*final(g), x as int, y as int, w as int, h as int),
{
    let ghost g0 = *g;
    let mut b: usize = y;
    while b < y + h
        invariant
            g0.wf(),
            floor_kept(g0, *g),
            x + w <= g.width,
            y + h <= g.height,
            y <= b <= y + h,
            rect_floor(*g, x as int, y as int, w as int, b - y),
        decreases y + h - b,
    {
        let mut a: usize = x;
        while a < x + w
            invariant
                g0.wf(),
                floor_kept(g0, *g),
                x + w <= g.width,
                y + h <= g.height,
                y <= b < y + h,
                x <= a <= x + w,
                rect_floor(*g, x as int, y as int, w as int, b - y),
                forall|c: int| x <= c < a ==> #[trigger] g.enterable_at(c, b as int),
            decreases x + w - a,
        {
            let ghost before = *g;
            proof {
                lemma_index_in_range(g.width as int, g.height as int, a as int, b as int);
            }
            let i = b * g.width + a;
            g.set_index(i, TileKind::Floor);
            proof {
                assert forall|c: int, e: int|
                    x <= c < x + w && y <= e < b + 1 && (e < b || c <= a) implies #[trigger] g.enterable_at(
                    c,
                    e,
                ) by {
                    lemma_index_in_range(g.width as int, g.height as int, c, e);
                    if c != a || e != b {
                        assert(index_of(g.width as int, c, e) != i) by {
                            lemma_distinct_cells(g.width as int, c, e, a as int, b as int);
                        }
                        if e < b {
                            assert(before.enterable_at(c, e));
                        } else {
                            assert(before.enterable_at(c, e));
                        }
                    }
                }
                assert forall|j: int| #[trigger] g0.is_floor(j) implies g.is_floor(j) by {
                    assert(before.is_floor(j));
                }
            }
            a = a + 1;
        }
        b = b + 1;
    }
}

proof fn lemma_distinct_cells(w: int, c: int, e: int, a: int, b: int)
    requires
        0 <= c < w,
        0 <= a < w,
        0 <= e,
        0 <= b,
        c != a || e != b,
    ensures
        index_of(w, c, e) != index_of(w, a, b),
{
    if e == b {
    } else if e < b {
        assert(e * w + c < b * w + a) by (nonlinear_arith)
            requires
                0 <= c < w,
                0 <= a,
                e < b,
        ;
    } else {
        assert(b * w + a < e * w + c) by (nonlinear_arith)
            requires
                0 <= a < w,
                0 <= c,
                b < e,
        ;
    }
}

/// An all-Floor map with the player in the middle.
pub fn build_empty(height: usize, width: usize) -> (r: Layout)
    requires
        dims_ok(width as int, height as int),
    ensures
        r.wf(width as int, height as int),
        r.rooms@.len() == 0,
        r.start == center_of(width as int, height as int),
        forall|i: int| 0 <= i < r.grid.size() ==> r.grid.tiles@[i] == TileKind::Floor,
{
    let grid = filled(width, height, TileKind::Floor);
    let start = Position { x: (width / 2) as i32, y: (height / 2) as i32 };
    proof {
        lemma_index_in_range(width as int, height as int, (width / 2) as int, (height / 2) as int);
    }
    Layout { grid, rooms: Vec::new(), start }
}

/// How many rooms the Standard strategy tries to place.
pub const NUM_ROOMS: usize = 20;
/// How many random rooms the Standard strategy draws before it gives up.
pub const ROOM_ATTEMPTS: usize = 200;
/// The smallest side of a room.
pub const ROOM_MIN_SIZE: usize = 2;
/// How many different side lengths a room can have.
pub const ROOM_SIZE_SPREAD: usize = 9;

proof fn lemma_floor_kept_enterable(g0: Grid, g1: Grid, p: Position)
    requires
        g0.wf(),
        floor_kept(g0, g1),
        g0.enterable(p),
    ensures
        g1.enterable(p),
{
    lemma_index_in_range(g0.width as int, g0.height as int, p.x as int, p.y as int);
    assert(g0.is_floor(g0.index_spec(p)));
}

proof fn lemma_floor_kept_rect(g0: Grid, g1: Grid, r: Room)
    requires
        g0.wf(),
        floor_kept(g0, g1),
        rect_floor(g0, r.x as int, r.y as int, r.width as int, r.height as int),
    ensures
        rect_floor(g1, r.x as int, r.y as int, r.width as int, r.height as int),
{
    assert forall|a: int, b: int|
        r.x <= a < r.x + r.width && r.y <= b < r.y + r.height implies #[trigger] g1.enterable_at(a, b) by {
        assert(g0.enterable_at(a, b));
        lemma_index_in_range(g0.width as int, g0.height as int, a, b);
        assert(g0.is_floor(index_of(g0.width as int, a, b)));
    }
}

proof fn lemma_floor_kept_rect_at(g0: Grid, g1: Grid, x: int, y: int, w: int, h: int)
    requires
        g0.wf(),
        floor_kept(g0, g1),
        rect_floor(g0, x, y, w, h),
    ensures
        rect_floor(g1, x, y, w, h),
{
    assert forall|a: int, b: int| x <= a < x + w && y <= b < y + h implies #[trigger] g1.enterable_at(a, b) by {
        assert(g0.enterable_at(a, b));
        lemma_index_in_range(g0.width as int, g0.height as int, a, b);
        assert(g0.is_floor(index_of(g0.width as int, a, b)));
    }
}

pub open spec fn min_int(a: int, b: int) -> int {
    if a <= b {
        a
    } else {
        b
    }
}

pub open spec fn dist_int(a: int, b: int) -> int {
    if a <= b {
        b - a
    } else {
        a - b
    }
}

/// The L-shaped corridor from `(ax, ay)` along its row to column `bx`, then
/// along that column to `(bx, by)`, is all Floor.
pub open spec fn corridor_floor(g: Grid, ax: int, ay: int, bx: int, by: int) -> bool {
    &&& rect_floor(g, min_int(ax, bx), ay, dist_int(ax, bx) + 1, 1)
    &&& rect_floor(g, bx, min_int(ay, by), 1, dist_int(ay, by) + 1)
}

/// Consecutive rooms are joined, centre to centre, by Floor corridors.
pub open spec fn rooms_joined(g: Grid, rooms: Seq<Room>) -> bool {
    forall|k: int|
        1 <= k < rooms.len() ==> corridor_floor(
            g,
            rooms[k - 1].center_spec().x as int,
            rooms[k - 1].center_spec().y as int,
            (#[trigger] rooms[k]).center_spec().x as int,
            rooms[k].center_spec().y as int,
        )
}

/// Every tile of every room is Floor.
pub open spec fn rooms_floor(g: Grid, rooms: Seq<Room>) -> bool {
    forall|k: int|
        0 <= k < rooms.len() ==> rect_floor(
            g,
            (#[trigger] rooms[k]).x as int,
            rooms[k].y as int,
            rooms[k].width as int,
            rooms[k].height as int,
        )
}

proof fn lemma_floor_kept_rooms(g0: Grid, g1: Grid, rooms: Seq<Room>)
    requires
        g0.wf(),
        floor_kept(g0, g1),
        rooms_floor(g0, rooms),
    ensures
        rooms_floor(g1, rooms),
{
    assert forall|k: int| 0 <= k < rooms.len() implies rect_floor(
        g1,
        (#[trigger] rooms[k]).x as int,
        rooms[k].y as int,
        rooms[k].width as int,
        rooms[k].height as int,
    ) by {
        lemma_floor_kept_rect(g0, g1, rooms[k]);
    }
}

proof fn lemma_floor_kept_trans(g0: Grid, g1: Grid, g2: Grid)
    requires
        floor_kept(g0, g1),
        floor_kept(g1, g2),
    ensures
        floor_kept(g0, g2),
{
    assert forall|i: int| #[trigger] g0.is_floor(i) implies g2.is_floor(i) by {
        assert(g1.is_floor(i));
    }
}

/// Whether `room` shares a tile with any of `rooms`.
fn overlaps_any(rooms: &Vec<Room>, room: &Room, width: usize, height: usize) -> (r: bool)
    requires
        forall|k: int| 0 <= k < rooms@.len() ==> #[trigger] rooms@[k].inside(width as int, height as int),
        room.inside(width as int, height as int),
    ensures
        r == exists|k: int| 0 <= k < rooms@.len() && #[trigger] rooms@[k].overlaps_spec(*room),
{
    let mut k: usize = 0;
    while k < rooms.len()
        invariant
            forall|j: int| 0 <= j < rooms@.len() ==> #[trigger] rooms@[j].inside(width as int, height as int),
            room.inside(width as int, height as int),
            k <= rooms@.len(),
            forall|j: int| 0 <= j < k ==> !(#[trigger] rooms@[j].overlaps_spec(*room)),
        decreases rooms@.len() - k,
    {
        assert(rooms@[k as int].inside(width as int, height as int));
        if rooms[k].overlaps(room) {
            return true;
        }
        k = k + 1;
    }
    false
}

/// Carves a corridor from `(ax, ay)` along its row to column `bx`, then
/// along that column to `(bx, by)`.
fn carve_corridor(g: &mut Grid, ax: usize, ay: usize, bx: usize, by: usize)
    requires
        old(g).wf(),
        ax < old(g).width,
        bx < old(g).width,
        ay < old(g).height,
        by < old(g).height,
    ensures
        floor_kept(*old(g), *final(g)),
        corridor_floor(*final(g), ax as int, ay as int, bx as int, by as int),
{
    let ghost g0 = *g;
    let (x0, x1) = if ax <= bx {
        (ax, bx)
    } else {
        (bx, ax)
    };
    carve_rect(g, x0, ay, x1 - x0 + 1, 1);
    let ghost g1 = *g;
    let (y0, y1) = if ay <= by {
        (ay, by)
    } else {
        (by, ay)
    };
    carve_rect(g, bx, y0, 1, y1 - y0 + 1);
    proof {
        lemma_floor_kept_trans(g0, g1, *g);
        lemma_floor_kept_rect_at(g1, *g, x0 as int, ay as int, (x1 - x0 + 1) as int, 1);
    }
}

/// Rooms of random size at random places, none sharing a tile with another,
/// joined in order by L-shaped corridors; the player starts in the middle of
/// the first room (in the middle of the map when no room fits).
pub fn build_standard(height: usize, width: usize, rng: &mut RngComponent) -> (r: Layout)
    requires
        dims_ok(width as int, height as int),
    ensures
        r.wf(width as int, height as int),
        r.rooms@.len() <= NUM_ROOMS,
        forall|a: int, b: int|
            0 <= a < b < r.rooms@.len() ==> !(#[trigger] r.rooms@[a]).overlaps_spec(
                #[trigger] r.rooms@[b],
            ),
        r.rooms@.len() > 0 ==> r.start == r.rooms@[0].center_spec(),
        r.rooms@.len() == 0 ==> r.start == center_of(width as int, height as int),
        rooms_floor(r.grid, r.rooms@),
        rooms_joined(r.grid, r.rooms@),
        width >= ROOM_MIN_SIZE + ROOM_SIZE_SPREAD + 1 && height >= ROOM_MIN_SIZE + ROOM_SIZE_SPREAD + 1
            ==> r.rooms@.len() >= 1,
{
    let mut grid = filled(width, height, TileKind::Wall);
    let mut rooms: Vec<Room> = Vec::new();
    let mut attempt: usize = 0;
    while attempt < ROOM_ATTEMPTS && rooms.len() < NUM_ROOMS
        invariant
            grid.wf(),
            grid.width == width,
            grid.height == height,
            rooms@.len() <= NUM_ROOMS,
            forall|k: int| 0 <= k < rooms@.len() ==> #[trigger] rooms@[k].inside(width as int, height as int),
            forall|a: int, b: int|
                0 <= a < b < rooms@.len() ==> !(#[trigger] rooms@[a]).overlaps_spec(#[trigger] rooms@[b]),
            rooms@.len() > 0 ==> grid.enterable(rooms@[0].center_spec()),
            rooms_floor(grid, rooms@),
            attempt > 0 && width >= ROOM_MIN_SIZE + ROOM_SIZE_SPREAD + 1 && height >= ROOM_MIN_SIZE
                + ROOM_SIZE_SPREAD + 1 ==> rooms@.len() >= 1,
        decreases ROOM_ATTEMPTS - attempt,
    {
        let rw = ROOM_MIN_SIZE + draw_below(rng, ROOM_SIZE_SPREAD);
        let rh = ROOM_MIN_SIZE + draw_below(rng, ROOM_SIZE_SPREAD);
        if rw + 2 <= width && rh + 2 <= height {
            let x = 1 + draw_below(rng, width - rw - 1);
            let y = 1 + draw_below(rng, height - rh - 1);
            let room = Room { x, y, width: rw, height: rh };
            if !overlaps_any(&rooms, &room, width, height) {
                let ghost g0 = grid;
                carve_rect(&mut grid, x, y, rw, rh);
                proof {
                    lemma_floor_kept_rooms(g0, grid, rooms@);
                    if rooms@.len() > 0 {
                        lemma_floor_kept_enterable(g0, grid, rooms@[0].center_spec());
                    } else {
                        let c = room.center_spec();
                        assert(grid.enterable_at(c.x as int, c.y as int));
                    }
                }
                let ghost old_rooms = rooms@;
                rooms.push(room);
                proof {
                    assert forall|k: int| 0 <= k < rooms@.len() implies rect_floor(
                        grid,
                        (#[trigger] rooms@[k]).x as int,
                        rooms@[k].y as int,
                        rooms@[k].width as int,
                        rooms@[k].height as int,
                    ) by {
                        if k < old_rooms.len() {
                            assert(rooms@[k] == old_rooms[k]);
                        }
                    }
                    assert forall|a: int, b: int|
                        0 <= a < b < rooms@.len() implies !(#[trigger] rooms@[a]).overlaps_spec(
                        #[trigger] rooms@[b],
                    ) by {
                        if b == rooms@.len() - 1 {
                            assert(rooms@[b] == room);
                            assert(!rooms@[a].overlaps_spec(room));
                        }
                    }
                }
            }
        }
        attempt = attempt + 1;
    }
    let ghost g_rooms = grid;
    let start = if rooms.len() > 0 {
        proof {
            assert(rooms@[0].inside(width as int, height as int));
        }
        rooms[0].center()
    } else {
        let c = Position { x: (width / 2) as i32, y: (height / 2) as i32 };
        carve_rect(&mut grid, width / 2, height / 2, 1, 1);
        proof {
            assert(grid.enterable_at(c.x as int, c.y as int));
            lemma_floor_kept_rooms(g_rooms, grid, rooms@);
        }
        c
    };
    let ghost g_start = grid;
    let mut k: usize = 1;
    while k < rooms.len()
        invariant
            g_start.wf(),
            floor_kept(g_start, grid),
            grid.width == width,
            grid.height == height,
            g_start.enterable(start),
            rooms_floor(g_start, rooms@),
            forall|j: int| 0 <= j < rooms@.len() ==> #[trigger] rooms@[j].inside(width as int, height as int),
            1 <= k,
            forall|j: int|
                1 <= j < k && j < rooms@.len() ==> corridor_floor(
                    grid,
                    rooms@[j - 1].center_spec().x as int,
                    rooms@[j - 1].center_spec().y as int,
                    (#[trigger] rooms@[j]).center_spec().x as int,
                    rooms@[j].center_spec().y as int,
                ),
        decreases rooms@.len() - k,
    {
        assert(rooms@[k - 1].inside(width as int, height as int));
        assert(rooms@[k as int].inside(width as int, height as int));
        let a = rooms[k - 1].center();
        let b = rooms[k].center();
        let ghost before = grid;
        carve_corridor(&mut grid, a.x as usize, a.y as usize, b.x as usize, b.y as usize);
        proof {
            lemma_floor_kept_trans(g_start, before, grid);
            assert forall|j: int|
                1 <= j < k + 1 && j < rooms@.len() implies corridor_floor(
                grid,
                rooms@[j - 1].center_spec().x as int,
                rooms@[j - 1].center_spec().y as int,
                (#[trigger] rooms@[j]).center_spec().x as int,
                rooms@[j].center_spec().y as int,
            ) by {
                if j < k {
                    let p = rooms@[j - 1].center_spec();
                    let q = rooms@[j].center_spec();
                    lemma_floor_kept_rect_at(before, grid, min_int(p.x as int, q.x as int), p.y as int, dist_int(p.x as int, q.x as int) + 1, 1);
                    lemma_floor_kept_rect_at(before, grid, q.x as int, min_int(p.y as int, q.y as int), 1, dist_int(p.y as int, q.y as int) + 1);
                }
            }
        }
        k = k + 1;
    }
    proof {
        lemma_floor_kept_enterable(g_start, grid, start);
        lemma_floor_kept_rooms(g_start, grid, rooms@);
    }
    Layout { grid, rooms, start }
}

/// Percentage of tiles that the cellular automaton seeds as Floor.
pub const AUTOMATA_FLOOR_PERCENT: usize = 55;
/// Number of smoothing passes of the cellular automaton.
pub const SMOOTHING_PASSES: usize = 10;
/// Percentage of Floor that the drunkard strategy aims for.
pub const DRUNKARD_COVERAGE_PERCENT: usize = 40;
/// Most walks that the drunkard strategy takes.
pub const DRUNKARD_MAX_WALKS: usize = 400;
/// Most steps of one walk.
pub const DRUNKARD_MAX_STEPS: usize = 400;

pub open spec fn wall_at(g: Grid, x: int, y: int) -> int {
    if g.tile_at(x, y) == TileKind::Wall {
        1
    } else {
        0
    }
}

/// How many of the eight tiles around `(x, y)` are Wall, off-map ones included.
pub open spec fn walls_around(g: Grid, x: int, y: int) -> int {
    wall_at(g, x - 1, y - 1) + wall_at(g, x, y - 1) + wall_at(g, x + 1, y - 1) + wall_at(g, x - 1, y)
        + wall_at(g, x + 1, y) + wall_at(g, x - 1, y + 1) + wall_at(g, x, y + 1) + wall_at(
        g,
        x + 1,
        y + 1,
    )
}

/// A tile becomes Wall when most of its eight neighbours are Wall, else Floor.
pub open spec fn smoothed_tile(g: Grid, i: int) -> TileKind {
    let p = g.position_spec(i);
    if walls_around(g, p.x as int, p.y as int) > 4 {
        TileKind::Wall
    } else {
        TileKind::Floor
    }
}

fn wall_count_at(g: &Grid, x: i32, y: i32) -> (r: usize)
    requires
        g.wf(),
    ensures
        r == wall_at(*g, x as int, y as int),
{
    if g.get(Position::new(x, y)) == TileKind::Wall {
        1
    } else {
        0
    }
}

/// Number of Wall tiles around an on-map position.
fn count_walls_around(g: &Grid, p: Position) -> (r: usize)
    requires
        g.wf(),
        g.in_bounds(p.x as int, p.y as int),
    ensures
        r == walls_around(*g, p.x as int, p.y as int),
{
    let (x, y) = (p.x, p.y);
    wall_count_at(g, x - 1, y - 1) + wall_count_at(g, x, y - 1) + wall_count_at(g, x + 1, y - 1)
        + wall_count_at(g, x - 1, y) + wall_count_at(g, x + 1, y) + wall_count_at(g, x - 1, y + 1)
        + wall_count_at(g, x, y + 1) + wall_count_at(g, x + 1, y + 1)
}

/// One majority-rule pass over the whole map.
pub fn smooth(g: &Grid) -> (r: Grid)
    requires
        g.wf(),
    ensures
        r.wf(),
        r.width == g.width,
        r.height == g.height,
        forall|i: int| 0 <= i < r.size() ==> r.tiles@[i] == smoothed_tile(*g, i),
{
    let n = g.len();
    let mut tiles: Vec<TileKind> = Vec::new();
    let mut i: usize = 0;
    while i < n
        invariant
            g.wf(),
            n == g.size(),
            i <= n,
            tiles@.len() == i,
            forall|j: int| 0 <= j < i ==> tiles@[j] == smoothed_tile(*g, j),
        decreases n - i,
    {
        let p = g.position_at(i);
        let t = if count_walls_around(g, p) > 4 {
            TileKind::Wall
        } else {
            TileKind::Floor
        };
        tiles.push(t);
        i = i + 1;
    }
    Grid { width: g.width, height: g.height, tiles }
}

/// How many tiles the region of tile `i` holds.
pub open spec fn region_size(g: Grid, i: int) -> int {
    reached_set(distances(g, i)).len() as int
}

/// The reached entries of `d` below `j`.
spec fn reached_below(d: Seq<usize>, j: int) -> Set<int> {
    Set::new(|x: int| 0 <= x < j && finite(d[x]))
}

proof fn lemma_reached_below_finite(d: Seq<usize>, j: int)
    requires
        0 <= j,
    ensures
        reached_below(d, j).finite(),
{
    lemma_int_range(0, j);
    assert(reached_below(d, j).subset_of(set_int_range(0, j)));
    lemma_len_subset(reached_below(d, j), set_int_range(0, j));
}

/// The number of reached entries of `d`.
fn count_reached(d: &Vec<usize>) -> (r: usize)
    ensures
        r == reached_set(d@).len(),
{
    let mut c: usize = 0;
    let mut j: usize = 0;
    proof {
        assert(reached_below(d@, 0) =~= Set::empty());
    }
    while j < d.len()
        invariant
            j <= d@.len(),
            c == reached_below(d@, j as int).len(),
            c <= j,
        decreases d@.len() - j,
    {
        proof {
            lemma_reached_below_finite(d@, j as int);
        }
        if d[j] != UNREACHABLE {
            proof {
                assert(reached_below(d@, j + 1) =~= reached_below(d@, j as int).insert(j as int));
            }
            c = c + 1;
        } else {
            proof {
                assert(reached_below(d@, j + 1) =~= reached_below(d@, j as int));
            }
        }
        j = j + 1;
    }
    proof {
        assert(reached_below(d@, d@.len() as int) =~= reached_set(d@));
    }
    c
}

/// A Floor tile whose connected Floor region is as large as any, the first
/// in row-major order; `None` when there is no Floor.
fn largest_region_start(g: &Grid) -> (r: Option<usize>)
    requires
        g.wf(),
    ensures
        r is None <==> forall|i: int| 0 <= i < g.size() ==> !g.is_floor(i),
        r matches Some(b) ==> g.is_floor(b as int) && forall|i: int|
            #[trigger] g.is_floor(i) ==> region_size(*g, i) <= region_size(*g, b as int),
{
    let n = g.len();
    let mut best: Option<usize> = None;
    let mut best_size: usize = 0;
    let mut i: usize = 0;
    while i < n
        invariant
            g.wf(),
            n == g.size(),
            i <= n,
            best is None ==> forall|j: int| 0 <= j < i ==> !g.is_floor(j),
            best matches Some(b) ==> b < i && g.is_floor(b as int) && best_size == region_size(*g, b as int)
                && forall|j: int| 0 <= j < i && #[trigger] g.is_floor(j) ==> region_size(*g, j) <= best_size,
        decreases n - i,
    {
        if g.tiles[i] == TileKind::Floor {
            let p = g.position_at(i);
            let m = DistanceMap::new(g, p);
            let size = count_reached(&m.dist);
            proof {
                assert(g.index_or_none(p) == i as int);
            }
            if best.is_none() || size > best_size {
                best = Some(i);
                best_size = size;
            }
        }
        i = i + 1;
    }
    best
}

/// `passes` are `noise` followed by each of its smoothing passes in turn.
pub open spec fn smoothing_chain(noise: Grid, passes: Seq<Grid>) -> bool {
    &&& passes.len() == SMOOTHING_PASSES + 1
    &&& passes[0] == noise
    &&& forall|k: int|
        0 <= k < SMOOTHING_PASSES ==> {
            &&& (#[trigger] passes[k + 1]).wf()
            &&& passes[k + 1].width == noise.width
            &&& passes[k + 1].height == noise.height
            &&& forall|i: int| 0 <= i < passes[k + 1].size() ==> passes[k + 1].tiles@[i] == smoothed_tile(passes[k], i)
        }
}

/// What the cellular automaton makes of `noise`: no rooms, a map whose Floor
/// is all reached from `start`, and, when the smoothed noise has Floor, that
/// smoothed map sealed to a largest region holding `start`.
pub open spec fn automata_result(noise: Grid, g: Grid, rooms: Seq<Room>, start: Position) -> bool {
    &&& rooms.len() == 0
    &&& connected_from(g, g.index_spec(start))
    &&& exists|passes: Seq<Grid>| #[trigger] smoothing_chain(noise, passes) && {
        let last = passes[SMOOTHING_PASSES as int];
        (exists|i: int| last.is_floor(i)) ==> {
            &&& last.is_floor(last.index_spec(start))
            &&& forall|i: int| #[trigger] last.is_floor(i) ==> region_size(last, i) <= region_size(last, last.index_spec(start))
            &&& g.tiles@ == sealed(last.tiles@, distances(last, last.index_spec(start)))
        }
    }
}

/// Smooths `noise` `SMOOTHING_PASSES` times, keeps a largest connected
/// Floor region (sealing the others) and starts the player in it; when the
/// smoothed map has no Floor, the centre is carved and the player starts there.
pub fn automata_from_noise(noise: Grid) -> (r: Layout)
    requires
        noise.wf(),
    ensures
        r.wf(noise.width as int, noise.height as int),
        automata_result(noise, r.grid, r.rooms@, r.start),
{
    let width = noise.width;
    let height = noise.height;
    let mut grid = noise;
    let ghost mut passes: Seq<Grid> = seq![grid];
    let mut pass: usize = 0;
    while pass < SMOOTHING_PASSES
        invariant
            grid.wf(),
            grid.width == width,
            grid.height == height,
            noise.width == width,
            noise.height == height,
            pass <= SMOOTHING_PASSES,
            passes.len() == pass + 1,
            passes[0] == noise,
            passes[pass as int] == grid,
            forall|k: int|
                0 <= k < pass ==> {
                    &&& (#[trigger] passes[k + 1]).wf()
                    &&& passes[k + 1].width == noise.width
                    &&& passes[k + 1].height == noise.height
                    &&& forall|i: int| 0 <= i < passes[k + 1].size() ==> passes[k + 1].tiles@[i] == smoothed_tile(passes[k], i)
                },
        decreases SMOOTHING_PASSES - pass,
    {
        let next = smooth(&grid);
        proof {
            passes = passes.push(next);
        }
        grid = next;
        pass = pass + 1;
    }
    let ghost last = grid;
    proof {
        assert(smoothing_chain(noise, passes));
    }
    let start = match largest_region_start(&grid) {
        Some(s) => {
            let p = grid.position_at(s);
            proof {
                assert(last.index_spec(p) == s as int);
            }
            p
        },
        None => {
            carve_rect(&mut grid, width / 2, height / 2, 1, 1);
            let c = Position { x: (width / 2) as i32, y: (height / 2) as i32 };
            proof {
                assert(grid.enterable_at(c.x as int, c.y as int));
            }
            c
        },
    };
    let ghost before_seal = grid;
    grid.seal_unreachable(start);
    proof {
        lemma_index_in_range(width as int, height as int, start.x as int, start.y as int);
        if exists|i: int| last.is_floor(i) {
            assert(before_seal == last);
            assert(last.index_or_none(start) == last.index_spec(start));
        }
    }
    Layout { grid, rooms: Vec::new(), start }
}

/// Random noise smoothed into caves; only the largest cave is kept, the
/// others are sealed, and the player starts inside it.
pub fn build_automata(height: usize, width: usize, rng: &mut RngComponent) -> (r: Layout)
    requires
        dims_ok(width as int, height as int),
    ensures
        r.wf(width as int, height as int),
        exists|noise: Grid|
            noise.wf() && noise.width == width && noise.height == height && #[trigger] automata_result(
                noise,
                r.grid,
                r.rooms@,
                r.start,
            ),
{
    let mut grid = filled(width, height, TileKind::Wall);
    let n = grid.len();
    let mut i: usize = 0;
    while i < n
        invariant
            grid.wf(),
            grid.width == width,
            grid.height == height,
            n == grid.size(),
            i <= n,
        decreases n - i,
    {
        if draw_below(rng, 100) < AUTOMATA_FLOOR_PERCENT {
            grid.set_index(i, TileKind::Floor);
        }
        i = i + 1;
    }
    let ghost noise = grid;
    let r = automata_from_noise(grid);
    proof {
        assert(automata_result(noise, r.grid, r.rooms@, r.start));
    }
    r
}

pub open spec fn step_spec(width: int, height: int, p: Position, dir: int) -> Position {
    if dir == 0 && p.x > 0 {
        Position { x: (p.x - 1) as i32, y: p.y }
    } else if dir == 1 && p.x + 1 < width {
        Position { x: (p.x + 1) as i32, y: p.y }
    } else if dir == 2 && p.y > 0 {
        Position { x: p.x, y: (p.y - 1) as i32 }
    } else if dir == 3 && p.y + 1 < height {
        Position { x: p.x, y: (p.y + 1) as i32 }
    } else {
        p
    }
}

/// Where a walk from `start` stands after its first `k` directions.
pub open spec fn walk_pos(width: int, height: int, start: Position, dirs: Seq<usize>, k: int) -> Position
    decreases k,
{
    if k <= 0 {
        start
    } else {
        step_spec(width, height, walk_pos(width, height, start, dirs, k - 1), dirs[k - 1] as int)
    }
}

/// The walk from `start` stood on tile `i` before one of its first `k` steps.
pub open spec fn visited(g: Grid, start: Position, dirs: Seq<usize>, k: int, i: int) -> bool {
    exists|kk: int|
        0 <= kk < k && g.index_spec(#[trigger] walk_pos(g.width as int, g.height as int, start, dirs, kk))
            == i
}

proof fn lemma_visited_next(g: Grid, start: Position, dirs: Seq<usize>, k: int, i: int)
    requires
        0 <= k,
    ensures
        visited(g, start, dirs, k + 1, i) <==> visited(g, start, dirs, k, i) || g.index_spec(
            walk_pos(g.width as int, g.height as int, start, dirs, k),
        ) == i,
{
    if visited(g, start, dirs, k + 1, i) {
        let kk = choose|kk: int|
            0 <= kk < k + 1 && g.index_spec(
                #[trigger] walk_pos(g.width as int, g.height as int, start, dirs, kk),
            ) == i;
        if kk < k {
            assert(visited(g, start, dirs, k, i));
        }
    }
    if visited(g, start, dirs, k, i) {
        let kk = choose|kk: int|
            0 <= kk < k && g.index_spec(
                #[trigger] walk_pos(g.width as int, g.height as int, start, dirs, kk),
            ) == i;
        assert(0 <= kk < k + 1);
    }
    if g.index_spec(walk_pos(g.width as int, g.height as int, start, dirs, k)) == i {
        assert(0 <= k < k + 1);
    }
}

/// The Floor tiles of `g`.
pub open spec fn floor_set(g: Grid) -> Set<int> {
    Set::new(|i: int| g.is_floor(i))
}

proof fn lemma_floor_set_finite(g: Grid)
    ensures
        floor_set(g).finite(),
        floor_set(g).len() <= g.size(),
{
    lemma_int_range(0, g.size());
    assert(floor_set(g).subset_of(set_int_range(0, g.size())));
    lemma_len_subset(floor_set(g), set_int_range(0, g.size()));
}

/// Walks from `start`, one step per direction (0 west, 1 east, 2 north,
/// 3 south; a step off the map or any other value stays put), turning every
/// tile it stands on before a step into Floor. Afterwards the Floor tiles are
/// exactly those before plus the tiles the walk stood on. Returns how many
/// tiles became Floor.
pub fn carve_walk(grid: &mut Grid, start: Position, dirs: &Vec<usize>) -> (carved: usize)
    requires
        old(grid).wf(),
        old(grid).in_bounds(start.x as int, start.y as int),
    ensures
        floor_kept(*old(grid), *final(grid)),
        forall|i: int|
            0 <= i < old(grid).size() ==> (#[trigger] final(grid).is_floor(i) <==> old(grid).is_floor(i)
                || visited(*old(grid), start, dirs@, dirs@.len() as int, i)),
        carved <= dirs@.len(),
        floor_set(*old(grid)).len() + carved == floor_set(*final(grid)).len(),
{
    let ghost g0 = *grid;
    let width = grid.width;
    let height = grid.height;
    let mut p = start;
    let mut carved: usize = 0;
    let mut k: usize = 0;
    while k < dirs.len()
        invariant
            g0.wf(),
            grid.wf(),
            grid.width == width,
            grid.height == height,
            g0.width == width,
            g0.height == height,
            floor_kept(g0, *grid),
            k <= dirs@.len(),
            carved <= k,
            floor_set(g0).len() + carved == floor_set(*grid).len(),
            p == walk_pos(width as int, height as int, start, dirs@, k as int),
            0 <= p.x < width,
            0 <= p.y < height,
            forall|i: int|
                0 <= i < g0.size() ==> (#[trigger] grid.is_floor(i) <==> g0.is_floor(i) || visited(
                    g0,
                    start,
                    dirs@,
                    k as int,
                    i,
                )),
        decreases dirs@.len() - k,
    {
        let ghost before = *grid;
        proof {
            lemma_index_in_range(width as int, height as int, p.x as int, p.y as int);
            lemma_floor_set_finite(before);
        }
        if grid.get(p) == TileKind::Wall {
            grid.set(p, TileKind::Floor);
            proof {
                let pi = g0.index_spec(p);
                assert(floor_set(*grid) =~= floor_set(before).insert(pi));
                assert(!floor_set(before).contains(pi));
            }
            carved = carved + 1;
        } else {
            proof {
                assert(floor_set(*grid) =~= floor_set(before));
            }
        }
        proof {
            let pi = g0.index_spec(p);
            assert(grid.is_floor(pi));
            assert forall|i: int| 0 <= i < g0.size() implies (#[trigger] grid.is_floor(i) <==> g0.is_floor(i)
                || visited(g0, start, dirs@, k + 1, i)) by {
                lemma_visited_next(g0, start, dirs@, k as int, i);
                if i != pi {
                    assert(grid.is_floor(i) == before.is_floor(i));
                }
            }
            assert forall|i: int| #[trigger] g0.is_floor(i) implies grid.is_floor(i) by {
                assert(before.is_floor(i));
            }
        }
        p = step(width, height, p, dirs[k]);
        k = k + 1;
    }
    carved
}

/// The next position of a walk: one step west, east, north or south, or
/// staying put where the step would leave the map.
fn step(width: usize, height: usize, p: Position, dir: usize) -> (r: Position)
    requires
        0 <= p.x < width,
        0 <= p.y < height,
        width <= i32::MAX,
        height <= i32::MAX,
    ensures
        0 <= r.x < width,
        0 <= r.y < height,
        r == step_spec(width as int, height as int, p, dir as int),
{
    if dir == 0 && p.x > 0 {
        Position::new(p.x - 1, p.y)
    } else if dir == 1 && ((p.x + 1) as usize) < width {
        Position::new(p.x + 1, p.y)
    } else if dir == 2 && p.y > 0 {
        Position::new(p.x, p.y - 1)
    } else if dir == 3 && ((p.y + 1) as usize) < height {
        Position::new(p.x, p.y + 1)
    } else {
        p
    }
}

/// The number of Floor tiles that `coverage_percent` of `n` tiles makes.
pub open spec fn coverage_target(n: int, coverage_percent: int) -> int {
    let p = if coverage_percent > 100 {
        100
    } else {
        coverage_percent
    };
    (n / 100) * p + (n % 100) * p / 100
}

/// The Floor tiles of `pre` are exactly `start` and the tiles that the
/// walks, each from `start`, stood on.
pub open spec fn walked(pre: Grid, start: Position, walks: Seq<Seq<usize>>) -> bool {
    forall|i: int|
        0 <= i < pre.size() ==> (#[trigger] pre.is_floor(i) <==> i == pre.index_spec(start) || exists|j: int|
            0 <= j < walks.len() && visited(pre, start, walks[j], walks[j].len() as int, i))
}

/// What the drunkard strategy makes: no rooms, the start at the centre, a
/// map carved by at most `DRUNKARD_MAX_WALKS` walks of `DRUNKARD_MAX_STEPS`
/// steps from the centre, stopped once the coverage target was met or the
/// walks ran out, and then sealed from the start.
pub open spec fn drunkard_result(width: int, height: int, coverage_percent: int, g: Grid, rooms: Seq<Room>, start: Position) -> bool {
    &&& rooms.len() == 0
    &&& start == center_of(width, height)
    &&& connected_from(g, g.index_spec(start))
    &&& exists|pre: Grid, walks: Seq<Seq<usize>>| #[trigger] walked(pre, start, walks) && {
        &&& pre.wf()
        &&& pre.width == width
        &&& pre.height == height
        &&& walks.len() <= DRUNKARD_MAX_WALKS
        &&& forall|j: int| 0 <= j < walks.len() ==> (#[trigger] walks[j]).len() == DRUNKARD_MAX_STEPS
        &&& (walks.len() == DRUNKARD_MAX_WALKS || floor_set(pre).len() >= coverage_target(
            width * height,
            coverage_percent,
        ))
        &&& g.tiles@ == sealed(pre.tiles@, distances(pre, pre.index_spec(start)))
    }
}

/// Random walks from the centre carve Floor until `coverage_percent` of the
/// map is Floor or the walk budget is spent; the player starts at the centre.
pub fn build_drunkard(height: usize, width: usize, coverage_percent: usize, rng: &mut RngComponent) -> (r: Layout)
    requires
        dims_ok(width as int, height as int),
    ensures
        r.wf(width as int, height as int),
        drunkard_result(width as int, height as int, coverage_percent as int, r.grid, r.rooms@, r.start),
{
    let mut grid = filled(width, height, TileKind::Wall);
    let n = grid.len();
    let center = Position { x: (width / 2) as i32, y: (height / 2) as i32 };
    proof {
        lemma_index_in_range(width as int, height as int, center.x as int, center.y as int);
    }
    let ci = (height / 2) * width + width / 2;
    let ghost g_wall = grid;
    grid.set_index(ci, TileKind::Floor);
    proof {
        assert(grid.enterable_at(center.x as int, center.y as int));
        assert(floor_set(grid) =~= set![ci as int]);
    }
    let percent: usize = if coverage_percent > 100 {
        100
    } else {
        coverage_percent
    };
    let q = n / 100;
    let rem = n % 100;
    proof {
        assert(q * percent <= q * 100) by (nonlinear_arith)
            requires
                percent <= 100,
                q >= 0,
        ;
        assert(rem * percent <= rem * 100) by (nonlinear_arith)
            requires
                percent <= 100,
                rem >= 0,
        ;
        assert(q * 100 + rem == n);
    }
    let target: usize = q * percent + rem * percent / 100;
    let ghost g_center = grid;
    let mut floor_count: usize = 1;
    let mut walks: usize = 0;
    let ghost mut hist: Seq<Seq<usize>> = Seq::empty();
    proof {
        assert(walked(grid, center, hist)) by {
            assert forall|i: int| 0 <= i < grid.size() implies (#[trigger] grid.is_floor(i) <==> i
                == grid.index_spec(center) || exists|j: int|
                0 <= j < hist.len() && visited(grid, center, hist[j], hist[j].len() as int, i)) by {
                if i != ci as int {
                    assert(g_wall.tiles@[i] == TileKind::Wall);
                }
            }
        }
    }
    while floor_count < target && walks < DRUNKARD_MAX_WALKS
        invariant
            g_center.wf(),
            g_center.enterable(center),
            floor_kept(g_center, grid),
            grid.wf(),
            grid.width == width,
            grid.height == height,
            n == grid.size(),
            walks <= DRUNKARD_MAX_WALKS,
            floor_count <= 1 + walks * DRUNKARD_MAX_STEPS,
            floor_count == floor_set(grid).len(),
            hist.len() == walks,
            forall|j: int| 0 <= j < hist.len() ==> (#[trigger] hist[j]).len() == DRUNKARD_MAX_STEPS,
            walked(grid, center, hist),
            0 <= center.x < width,
            0 <= center.y < height,
        decreases DRUNKARD_MAX_WALKS - walks,
    {
        let mut dirs: Vec<usize> = Vec::new();
        let mut steps: usize = 0;
        while steps < DRUNKARD_MAX_STEPS
            invariant
                steps <= DRUNKARD_MAX_STEPS,
                dirs@.len() == steps,
            decreases DRUNKARD_MAX_STEPS - steps,
        {
            dirs.push(draw_below(rng, 4));
            steps = steps + 1;
        }
        let ghost before = grid;
        let carved = carve_walk(&mut grid, center, &dirs);
        proof {
            lemma_floor_kept_trans(g_center, before, grid);
            let h2 = hist.push(dirs@);
            assert forall|i: int| 0 <= i < grid.size() implies (#[trigger] grid.is_floor(i) <==> i
                == grid.index_spec(center) || exists|j: int|
                0 <= j < h2.len() && visited(grid, center, h2[j], h2[j].len() as int, i)) by {
                assert(before.is_floor(i) <==> i == before.index_spec(center) || exists|j: int|
                    0 <= j < hist.len() && visited(before, center, hist[j], hist[j].len() as int, i));
                if exists|j: int| 0 <= j < hist.len() && visited(before, center, hist[j], hist[j].len() as int, i) {
                    let j = choose|j: int| 0 <= j < hist.len() && visited(before, center, hist[j], hist[j].len() as int, i);
                    assert(h2[j] == hist[j]);
                    assert(visited(grid, center, h2[j], h2[j].len() as int, i) == visited(before, center, hist[j], hist[j].len() as int, i));
                }
                if visited(before, center, dirs@, dirs@.len() as int, i) {
                    assert(h2[hist.len() as int] == dirs@);
                    assert(visited(grid, center, h2[hist.len() as int], h2[hist.len() as int].len() as int, i));
                }
                if exists|j: int| 0 <= j < h2.len() && visited(grid, center, h2[j], h2[j].len() as int, i) {
                    let j = choose|j: int| 0 <= j < h2.len() && visited(grid, center, h2[j], h2[j].len() as int, i);
                    if j < hist.len() {
                        assert(h2[j] == hist[j]);
                        assert(visited(before, center, hist[j], hist[j].len() as int, i));
                    } else {
                        assert(h2[j] == dirs@);
                        assert(visited(before, center, dirs@, dirs@.len() as int, i));
                    }
                }
            }
            hist = h2;
            lemma_floor_set_finite(grid);
        }
        floor_count = floor_count + carved;
        walks = walks + 1;
    }
    proof {
        lemma_floor_kept_enterable(g_center, grid, center);
        lemma_index_in_range(width as int, height as int, center.x as int, center.y as int);
    }
    let ghost pre = grid;
    grid.seal_unreachable(center);
    proof {
        assert(pre.index_or_none(center) == pre.index_spec(center));
        assert(walked(pre, center, hist));
    }
    Layout { grid, rooms: Vec::new(), start: center }
}

/// What the strategy `a` guarantees of the map `g`, its rooms and its start.
pub open spec fn strategy_result(a: Architect, width: int, height: int, g: Grid, rooms: Seq<Room>, start: Position) -> bool {
    match a {
        Architect::Empty => {
            &&& rooms.len() == 0
            &&& start == center_of(width, height)
            &&& forall|i: int| 0 <= i < g.size() ==> g.tiles@[i] == TileKind::Floor
        },
        Architect::Standard => {
            &&& rooms.len() <= NUM_ROOMS
            &&& forall|a: int, b: int|
                0 <= a < b < rooms.len() ==> !(#[trigger] rooms[a]).overlaps_spec(#[trigger] rooms[b])
            &&& rooms.len() > 0 ==> start == rooms[0].center_spec()
            &&& rooms.len() == 0 ==> start == center_of(width, height)
            &&& rooms_floor(g, rooms)
            &&& rooms_joined(g, rooms)
            &&& width >= ROOM_MIN_SIZE + ROOM_SIZE_SPREAD + 1 && height >= ROOM_MIN_SIZE
                + ROOM_SIZE_SPREAD + 1 ==> rooms.len() >= 1
        },
        Architect::Automata => exists|noise: Grid|
            noise.wf() && noise.width == width && noise.height == height && #[trigger] automata_result(
                noise,
                g,
                rooms,
                start,
            ),
        Architect::Drunkard => drunkard_result(width, height, DRUNKARD_COVERAGE_PERCENT as int, g, rooms, start),
    }
}

} // verus!

use vstd::prelude::*;
use crate::position::{Position, index_of, position_of, lemma_index_in_range, lemma_position_of_index};

verus! {

/// What a tile is made of.
#[derive(Clone, Copy, PartialEq, Eq, Structural, Debug, Hash)]
pub enum TileKind {
    Floor,
    Wall,
}

/// Why a grid could not be made.
#[derive(Clone, Copy, PartialEq, Eq, Structural, Debug)]
pub enum GridError {
    /// The width or the height is zero.
    NonPositiveDimension,
}

/// A `width` by `height` map of tiles, stored row by row.
pub struct Grid {
    pub width: usize,
    pub height: usize,
    pub tiles: Vec<TileKind>,
}

/// `j` is one of the four tiles next to `i` (west, east, north, south) on a
/// map `w` tiles wide holding `n` tiles.
pub open spec fn adjacent(w: int, n: int, i: int, j: int) -> bool {
    &&& 0 <= i < n
    &&& 0 <= j < n
    &&& {
        ||| (j == i - 1 && i % w != 0)
        ||| (j == i + 1 && j % w != 0)
        ||| j == i - w
        ||| j == i + w
    }
}

/// The dimensions of a grid that positions and indices can address.
pub open spec fn dimensions_fit(width: int, height: int) -> bool {
    &&& width <= i32::MAX
    &&& height <= i32::MAX
    &&& width * height < usize::MAX
}

impl Grid {
    pub open spec fn wf(&self) -> bool {
        &&& 0 < self.width
        &&& 0 < self.height
        &&& dimensions_fit(self.width as int, self.height as int)
        &&& self.tiles@.len() == self.width * self.height
    }

    pub open spec fn size(&self) -> int {
        self.tiles@.len() as int
    }

    /// The tile at index `i` is Floor.
    pub open spec fn is_floor(&self, i: int) -> bool {
        0 <= i < self.tiles@.len() && self.tiles@[i] == TileKind::Floor
    }

    pub open spec fn adj(&self, i: int, j: int) -> bool {
        adjacent(self.width as int, self.tiles@.len() as int, i, j)
    }

    pub open spec fn in_bounds(&self, x: int, y: int) -> bool {
        0 <= x < self.width && 0 <= y < self.height
    }

    pub open spec fn index_spec(&self, p: Position) -> int {
        index_of(self.width as int, p.x as int, p.y as int)
    }

    pub open spec fn position_spec(&self, i: int) -> Position {
        position_of(self.width as int, i)
    }

    /// The tile at `(x, y)`; everything outside the map counts as Wall.
    pub open spec fn tile_at(&self, x: int, y: int) -> TileKind {
        if self.in_bounds(x, y) {
            self.tiles@[index_of(self.width as int, x, y)]
        } else {
            TileKind::Wall
        }
    }

    pub open spec fn enterable_at(&self, x: int, y: int) -> bool {
        self.in_bounds(x, y) && self.tile_at(x, y) == TileKind::Floor
    }

    pub open spec fn enterable(&self, p: Position) -> bool {
        self.enterable_at(p.x as int, p.y as int)
    }

    /// The index of `p`, or -1 when `p` lies outside the map.
    pub open spec fn index_or_none(&self, p: Position) -> int {
        if self.in_bounds(p.x as int, p.y as int) {
            self.index_spec(p)
        } else {
            -1
        }
    }

    /// The enterable tiles among the west, east, north and south neighbours
    /// of `(x, y)`, in that order.
    pub open spec fn neighbours_spec(&self, x: int, y: int) -> Seq<Position> {
        keep_if(self.enterable_at(x - 1, y), x - 1, y) + keep_if(self.enterable_at(x + 1, y), x + 1, y)
            + keep_if(self.enterable_at(x, y - 1), x, y - 1) + keep_if(
            self.enterable_at(x, y + 1),
            x,
            y + 1,
        )
    }

    /// A grid of `width` by `height` tiles, all of kind `fill`.
    pub fn new(width: usize, height: usize, fill: TileKind) -> (r: Result<Grid, GridError>)
        requires
            dimensions_fit(width as int, height as int),
        ensures
            r is Ok <==> (width > 0 && height > 0),
            r is Err ==> r == Err::<Grid, GridError>(GridError::NonPositiveDimension),
            r matches Ok(g) ==> {
                &&& g.wf()
                &&& g.width == width
                &&& g.height == height
                &&& forall|i: int| 0 <= i < g.size() ==> g.tiles@[i] == fill
            },
    {
        if width == 0 || height == 0 {
            return Err(GridError::NonPositiveDimension);
        }
        let n = width * height;
        let mut tiles: Vec<TileKind> = Vec::new();
        let mut i: usize = 0;
        while i < n
            invariant
                i <= n,
                tiles@.len() == i,
                forall|k: int| 0 <= k < i ==> tiles@[k] == fill,
            decreases n - i,
        {
            tiles.push(fill);
            i = i + 1;
        }
        Ok(Grid { width, height, tiles })
    }

    /// Number of tiles.
    pub fn len(&self) -> (r: usize)
        ensures
            r == self.size(),
    {
        self.tiles.len()
    }

    /// The index of `(x, y)`, or `None` outside the map.
    pub fn index_at(&self, x: i32, y: i32) -> (r: Option<usize>)
        requires
            self.wf(),
        ensures
            r is Some <==> self.in_bounds(x as int, y as int),
            r matches Some(i) ==> i == index_of(self.width as int, x as int, y as int) && i
                < self.size(),
    {
        let p = Position::new(x, y);
        let r = p.to_index(self.width, self.height);
        proof {
            if self.in_bounds(x as int, y as int) {
                lemma_index_in_range(self.width as int, self.height as int, x as int, y as int);
            }
        }
        r
    }

    /// The position of the tile at index `i`.
    pub fn position_at(&self, i: usize) -> (r: Position)
        requires
            self.wf(),
            i < self.size(),
        ensures
            r == self.position_spec(i as int),
            self.in_bounds(r.x as int, r.y as int),
            self.index_spec(r) == i,
    {
        proof {
            lemma_position_of_index(self.width as int, self.height as int, i as int);
        }
        Position { x: (i % self.width) as i32, y: (i / self.width) as i32 }
    }

    /// The tile at `p`; a position outside the map reads as Wall.
    pub fn get(&self, p: Position) -> (r: TileKind)
        requires
            self.wf(),
        ensures
            r == self.tile_at(p.x as int, p.y as int),
    {
        match self.index_at(p.x, p.y) {
            Some(i) => self.tiles[i],
            None => TileKind::Wall,
        }
    }

    /// Whether `p` lies on the map and is Floor.
    pub fn can_enter(&self, p: Position) -> (r: bool)
        requires
            self.wf(),
        ensures
            r == self.enterable(p),
    {
        match self.index_at(p.x, p.y) {
            Some(i) => self.tiles[i] == TileKind::Floor,
            None => false,
        }
    }

    /// Sets the tile at `p`; a position outside the map changes nothing.
    pub fn set(&mut self, p: Position, kind: TileKind)
        requires
            old(self).wf(),
        ensures
            final(self).wf(),
            final(self).width == old(self).width,
            final(self).height == old(self).height,
            final(self).tiles@ == (if old(self).in_bounds(p.x as int, p.y as int) {
                old(self).tiles@.update(old(self).index_spec(p), kind)
            } else {
                old(self).tiles@
            }),
    {
        match self.index_at(p.x, p.y) {
            Some(i) => {
                self.tiles.set(i, kind);
            },
            None => {},
        }
    }

    /// Sets the tile at index `i`.
    pub fn set_index(&mut self, i: usize, kind: TileKind)
        requires
            old(self).wf(),
            i < old(self).size(),
        ensures
            final(self).wf(),
            final(self).width == old(self).width,
            final(self).height == old(self).height,
            final(self).tiles@ == old(self).tiles@.update(i as int, kind),
    {
        self.tiles.set(i, kind);
    }

    /// The enterable tiles next to `p`, west, east, north and south in that order.
    pub fn neighbours(&self, p: Position) -> (r: Vec<Position>)
        requires
            self.wf(),
        ensures
            r@ == self.neighbours_spec(p.x as int, p.y as int),
    {
        let mut r: Vec<Position> = Vec::new();
        if p.x > i32::MIN {
            let q = Position::new(p.x - 1, p.y);
            if self.can_enter(q) {
                r.push(q);
            }
        }
        let ghost w = r@;
        if p.x < i32::MAX {
            let q = Position::new(p.x + 1, p.y);
            if self.can_enter(q) {
                r.push(q);
            }
        }
        let ghost e = r@;
        if p.y > i32::MIN {
            let q = Position::new(p.x, p.y - 1);
            if self.can_enter(q) {
                r.push(q);
            }
        }
        let ghost nn = r@;
        if p.y < i32::MAX {
            let q = Position::new(p.x, p.y + 1);
            if self.can_enter(q) {
                r.push(q);
            }
        }
        proof {
            let x = p.x as int;
            let y = p.y as int;
            assert(w =~= keep_if(self.enterable_at(x - 1, y), x - 1, y));
            assert(e =~= w + keep_if(self.enterable_at(x + 1, y), x + 1, y));
            assert(nn =~= e + keep_if(self.enterable_at(x, y - 1), x, y - 1));
            assert(r@ =~= nn + keep_if(self.enterable_at(x, y + 1), x, y + 1));
        }
        r
    }
}

/// The position `(x, y)` alone when `b` holds, else nothing.
pub open spec fn keep_if(b: bool, x: int, y: int) -> Seq<Position> {
    if b {
        seq![Position { x: x as i32, y: y as i32 }]
    } else {
        Seq::empty()
    }
}

} // verus!

use vstd::prelude::*;
use vstd::arithmetic::div_mod::lemma_fundamental_div_mod_converse;

verus! {

/// A tile coordinate on the map; `x` grows to the east, `y` to the south.
#[derive(Clone, Copy, PartialEq, Eq, Structural, Debug, Hash)]
pub struct Position {
    pub x: i32,
    pub y: i32,
}

/// Row-major index of the tile `(x, y)` on a map `w` tiles wide.
pub open spec fn index_of(w: int, x: int, y: int) -> int {
    y * w + x
}

/// The position of the tile at row-major index `i` on a map `w` tiles wide.
pub open spec fn position_of(w: int, i: int) -> Position {
    Position { x: (i % w) as i32, y: (i / w) as i32 }
}

/// A tile inside a `w` by `h` map has an index below `w * h`.
pub proof fn lemma_index_in_range(w: int, h: int, x: int, y: int)
    requires
        0 <= x < w,
        0 <= y < h,
    ensures
        0 <= y * w <= index_of(w, x, y) < w * h,
{
    assert(0 <= y * w <= y * w + x < w * h) by (nonlinear_arith)
        requires
            0 <= x < w,
            0 <= y < h,
    ;
}

/// Going from an index to a position and back gives the same index.
pub proof fn lemma_position_of_index(w: int, h: int, i: int)
    requires
        0 < w <= i32::MAX,
        h <= i32::MAX,
        0 <= i < w * h,
    ensures
        0 <= position_of(w, i).x < w,
        0 <= position_of(w, i).y < h,
        position_of(w, i).x == i % w,
        position_of(w, i).y == i / w,
        index_of(w, position_of(w, i).x as int, position_of(w, i).y as int) == i,
{
    assert(0 <= i % w < w) by (nonlinear_arith)
        requires
            0 < w,
            0 <= i,
    ;
    assert(0 <= i / w < h) by (nonlinear_arith)
        requires
            0 < w,
            0 <= i < w * h,
    ;
    assert((i / w) * w + i % w == i) by (nonlinear_arith)
        requires
            0 < w,
    ;
}

impl Position {
    /// A position at `(x, y)`.
    pub fn new(x: i32, y: i32) -> (r: Position)
        ensures
            r.x == x,
            r.y == y,
    {
        Position { x, y }
    }

    /// The row-major index of this position on a `width` by `height` map,
    /// or `None` when the position lies outside it.
    pub fn to_index(&self, width: usize, height: usize) -> (r: Option<usize>)
        requires
            width * height <= usize::MAX,
        ensures
            r == (if 0 <= self.x < width && 0 <= self.y < height {
                Some(index_of(width as int, self.x as int, self.y as int) as usize)
            } else {
                None::<usize>
            }),
    {
        if 0 <= self.x && (self.x as usize) < width && 0 <= self.y && (self.y as usize) < height {
            proof {
                lemma_index_in_range(width as int, height as int, self.x as int, self.y as int);
            }
            Some((self.y as usize) * width + (self.x as usize))
        } else {
            None
        }
    }

    /// World coordinates of this tile's corner when each tile is `tile_size` units wide.
    pub fn translation(&self, tile_size: i32) -> (r: (i64, i64))
        ensures
            r.0 == self.x * tile_size,
            r.1 == self.y * tile_size,
    {
        proof {
            lemma_product_fits_i64(self.x as int, tile_size as int);
            lemma_product_fits_i64(self.y as int, tile_size as int);
        }
        ((self.x as i64) * (tile_size as i64), (self.y as i64) * (tile_size as i64))
    }
}

proof fn lemma_product_fits_i64(a: int, b: int)
    requires
        i32::MIN <= a <= i32::MAX,
        i32::MIN <= b <= i32::MAX,
    ensures
        i64::MIN <= a * b <= i64::MAX,
{
    assert(-0x4000_0000_0000_0000 <= a * b <= 0x4000_0000_0000_0000) by (nonlinear_arith)
        requires
            -0x8000_0000 <= a <= 0x7fff_ffff,
            -0x8000_0000 <= b <= 0x7fff_ffff,
    ;
}

/// Two positions on one map with the same index are the same position.
pub proof fn lemma_index_injective(w: int, h: int, p: Position, q: Position)
    requires
        0 < w,
        0 <= p.x < w,
        0 <= p.y < h,
        0 <= q.x < w,
        0 <= q.y < h,
        index_of(w, p.x as int, p.y as int) == index_of(w, q.x as int, q.y as int),
    ensures
        p == q,
{
    let i = index_of(w, p.x as int, p.y as int);
    lemma_fundamental_div_mod_converse(i, w, p.y as int, p.x as int);
    lemma_fundamental_div_mod_converse(i, w, q.y as int, q.x as int);
}

} // verus!

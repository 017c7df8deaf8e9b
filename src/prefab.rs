use vstd::prelude::*;
use bevy_turborand::RngComponent;
use crate::distance::{DistanceMap, UNREACHABLE, distances, finite, is_distance_map};
use crate::grid::{Grid, TileKind};
use crate::position::{Position, index_of, lemma_index_in_range};
use vstd::arithmetic::div_mod::lemma_fundamental_div_mod_converse;
use crate::rng::draw_below;

verus! {

/// Side of the square prefab.
pub const PREFAB_SIZE: usize = 5;

/// The prefab pattern: Floor, with a Wall pillar wherever both coordinates are odd.
pub open spec fn prefab_tile(a: int, b: int) -> TileKind {
    if a % 2 == 1 && b % 2 == 1 {
        TileKind::Wall
    } else {
        TileKind::Floor
    }
}

fn prefab_tile_at(a: usize, b: usize) -> (r: TileKind)
    ensures
        r == prefab_tile(a as int, b as int),
{
    if a % 2 == 1 && b % 2 == 1 {
        TileKind::Wall
    } else {
        TileKind::Floor
    }
}

/// A tile may lie under the prefab: reached, not the source itself, between
/// `min_dist` and `max_dist` steps away, and not reserved.
pub open spec fn placeable(d: Seq<usize>, reserved: Seq<bool>, i: int, min_dist: int, max_dist: int) -> bool {
    &&& finite(d[i])
    &&& 0 < d[i]
    &&& min_dist <= d[i] <= max_dist
    &&& !reserved[i]
}

/// Every tile of the prefab's square at `(x, y)` is placeable.
pub open spec fn footprint_placeable(
    w: int,
    d: Seq<usize>,
    reserved: Seq<bool>,
    x: int,
    y: int,
    min_dist: int,
    max_dist: int,
) -> bool {
    forall|a: int, b: int|
        0 <= a < PREFAB_SIZE && 0 <= b < PREFAB_SIZE ==> #[trigger] placeable(
            d,
            reserved,
            index_of(w, x + a, y + b),
            min_dist,
            max_dist,
        )
}

/// The prefab's square at `(x, y)` holds the pattern and is reserved.
pub open spec fn stamped_at(w: int, t: Seq<TileKind>, reserved: Seq<bool>, x: int, y: int) -> bool {
    forall|a: int, b: int|
        0 <= a < PREFAB_SIZE && 0 <= b < PREFAB_SIZE ==> t[#[trigger] index_of(w, x + a, y + b)]
            == prefab_tile(a, b) && reserved[index_of(w, x + a, y + b)]
}

/// Tile `i` lies in the prefab's square at `(x, y)`.
pub open spec fn in_square(w: int, x: int, y: int, i: int) -> bool {
    exists|a: int, b: int|
        0 <= a < PREFAB_SIZE && 0 <= b < PREFAB_SIZE && i == #[trigger] index_of(w, x + a, y + b)
}

/// The prefab went to `(x, y)`: the square lies on the map, each of its
/// tiles was placeable, it now holds the pattern and is reserved, and no
/// tile outside it changed.
pub open spec fn placed_at(
    g0: Grid,
    t1: Seq<TileKind>,
    r0: Seq<bool>,
    r1: Seq<bool>,
    start: Position,
    min_dist: int,
    max_dist: int,
    x: int,
    y: int,
) -> bool {
    &&& 0 <= x
    &&& 0 <= y
    &&& x + PREFAB_SIZE <= g0.width
    &&& y + PREFAB_SIZE <= g0.height
    &&& stamped_at(g0.width as int, t1, r1, x, y)
    &&& footprint_placeable(
        g0.width as int,
        distances(g0, g0.index_or_none(start)),
        r0,
        x,
        y,
        min_dist,
        max_dist,
    )
    &&& changed_within(g0, t1, r0, r1, x, y)
}

/// Every tile or reservation that differs lies in the square at `(x, y)`.
pub open spec fn changed_within(g0: Grid, t1: Seq<TileKind>, r0: Seq<bool>, r1: Seq<bool>, x: int, y: int) -> bool {
    forall|i: int|
        0 <= i < r0.len() && (t1[i] != g0.tiles@[i] || r1[i] != r0[i]) ==> in_square(
            g0.width as int,
            x,
            y,
            i,
        )
}

/// Distinct cells of the prefab's square lie on distinct tiles.
proof fn lemma_cells_distinct(w: int, x: int, y: int, k1: int, k2: int)
    requires
        0 <= x,
        0 <= y,
        x + PREFAB_SIZE <= w,
        0 <= k1 < PREFAB_SIZE * PREFAB_SIZE,
        0 <= k2 < PREFAB_SIZE * PREFAB_SIZE,
        k1 != k2,
    ensures
        index_of(w, x + k1 % 5, y + k1 / 5) != index_of(w, x + k2 % 5, y + k2 / 5),
{
    let i1 = index_of(w, x + k1 % 5, y + k1 / 5);
    let i2 = index_of(w, x + k2 % 5, y + k2 / 5);
    if i1 == i2 {
        lemma_fundamental_div_mod_converse(i1, w, y + k1 / 5, x + k1 % 5);
        lemma_fundamental_div_mod_converse(i1, w, y + k2 / 5, x + k2 % 5);
        assert(k1 == 5 * (k1 / 5) + k1 % 5);
        assert(k2 == 5 * (k2 / 5) + k2 % 5);
    }
}

/// Whether the prefab fits at `(x, y)`.
fn footprint_ok(
    m: &DistanceMap,
    reserved: &Vec<bool>,
    x: usize,
    y: usize,
    min_dist: usize,
    max_dist: usize,
) -> (r: bool)
    requires
        m.wf(),
        reserved@.len() == m.dist@.len(),
        x + PREFAB_SIZE <= m.width,
        y + PREFAB_SIZE <= m.height,
    ensures
        r == footprint_placeable(
            m.width as int,
            m.dist@,
            reserved@,
            x as int,
            y as int,
            min_dist as int,
            max_dist as int,
        ),
{
    let mut b: usize = 0;
    while b < PREFAB_SIZE
        invariant
            m.wf(),
            reserved@.len() == m.dist@.len(),
            x + PREFAB_SIZE <= m.width,
            y + PREFAB_SIZE <= m.height,
            b <= PREFAB_SIZE,
            forall|a2: int, b2: int|
                0 <= a2 < PREFAB_SIZE && 0 <= b2 < b ==> #[trigger] placeable(
                    m.dist@,
                    reserved@,
                    index_of(m.width as int, x + a2, y + b2),
                    min_dist as int,
                    max_dist as int,
                ),
        decreases PREFAB_SIZE - b,
    {
        let mut a: usize = 0;
        while a < PREFAB_SIZE
            invariant
                m.wf(),
                reserved@.len() == m.dist@.len(),
                x + PREFAB_SIZE <= m.width,
                y + PREFAB_SIZE <= m.height,
                b < PREFAB_SIZE,
                a <= PREFAB_SIZE,
                forall|a2: int, b2: int|
                    0 <= a2 < PREFAB_SIZE && 0 <= b2 < b ==> #[trigger] placeable(
                        m.dist@,
                        reserved@,
                        index_of(m.width as int, x + a2, y + b2),
                        min_dist as int,
                        max_dist as int,
                    ),
                forall|a2: int|
                    0 <= a2 < a ==> #[trigger] placeable(
                        m.dist@,
                        reserved@,
                        index_of(m.width as int, x + a2, (y + b) as int),
                        min_dist as int,
                        max_dist as int,
                    ),
            decreases PREFAB_SIZE - a,
        {
            proof {
                lemma_index_in_range(m.width as int, m.height as int, (x + a) as int, (y + b) as int);
            }
            let i = (y + b) * m.width + (x + a);
            let v = m.dist[i];
            if v == UNREACHABLE || v == 0 || v < min_dist || v > max_dist || reserved[i] {
                proof {
                    assert(!placeable(m.dist@, reserved@, i as int, min_dist as int, max_dist as int));
                    assert(!footprint_placeable(
                        m.width as int,
                        m.dist@,
                        reserved@,
                        x as int,
                        y as int,
                        min_dist as int,
                        max_dist as int,
                    )) by {
                        assert(!placeable(
                            m.dist@,
                            reserved@,
                            index_of(m.width as int, x + a, y + b),
                            min_dist as int,
                            max_dist as int,
                        ));
                    }
                }
                return false;
            }
            a = a + 1;
        }
        b = b + 1;
    }
    true
}

/// Tries up to `max_attempts` random places for the prefab whose every tile
/// is reached from `start` within `min_dist..=max_dist` steps and is not
/// reserved; at the first such place it stamps the pattern and reserves its
/// tiles. When no place is found the grid is left as it was.
pub fn apply_prefab(
    grid: &mut Grid,
    reserved: &mut Vec<bool>,
    start: Position,
    rng: &mut RngComponent,
    max_attempts: usize,
    min_dist: usize,
    max_dist: usize,
) -> (placed: bool)
    requires
        old(grid).wf(),
        old(reserved)@.len() == old(grid).size(),
    ensures
        final(grid).wf(),
        final(grid).width == old(grid).width,
        final(grid).height == old(grid).height,
        final(reserved)@.len() == old(reserved)@.len(),
        !placed ==> final(grid).tiles@ == old(grid).tiles@ && final(reserved)@ == old(reserved)@,
        (old(grid).width < PREFAB_SIZE || old(grid).height < PREFAB_SIZE || max_attempts == 0)
            ==> !placed,
        placed ==> exists|x: int, y: int|
            #[trigger] placed_at(
                *old(grid),
                final(grid).tiles@,
                old(reserved)@,
                final(reserved)@,
                start,
                min_dist as int,
                max_dist as int,
                x,
                y,
            ),
        forall|i: int|
            0 <= i < old(reserved)@.len() && final(grid).tiles@[i] != old(grid).tiles@[i]
                ==> final(reserved)@[i],
        old(grid).enterable(start) ==> final(grid).enterable(start),
        old(grid).enterable(start) ==> final(reserved)@[old(grid).index_spec(start)] == old(
            reserved,
        )@[old(grid).index_spec(start)],
        forall|i: int| 0 <= i < old(reserved)@.len() && old(reserved)@[i] ==> final(reserved)@[i],
{
    let w = grid.width;
    let h = grid.height;
    if w < PREFAB_SIZE || h < PREFAB_SIZE {
        return false;
    }
    let m = DistanceMap::new(grid, start);
    let ghost g0 = *grid;
    let ghost r0 = reserved@;
    let ghost s = g0.index_or_none(start);
    proof {
        if g0.enterable(start) {
            lemma_index_in_range(w as int, h as int, start.x as int, start.y as int);
            assert(g0.is_floor(s));
            assert(is_distance_map(g0, s, m.dist@));
        }
    }
    let mut attempt: usize = 0;
    while attempt < max_attempts
        invariant
            *grid == g0,
            reserved@ == r0,
            g0 == *old(grid),
            r0 == old(reserved)@,
            m.wf(),
            m.width == w,
            m.height == h,
            g0.wf(),
            g0.width == w,
            g0.height == h,
            PREFAB_SIZE <= w,
            PREFAB_SIZE <= h,
            reserved@.len() == m.dist@.len(),
            g0.enterable(start) ==> m.dist@[s] == 0 && s == g0.index_spec(start) && 0 <= s < g0.size(),
            m.dist@ == distances(g0, s),
            s == g0.index_or_none(start),
        decreases max_attempts - attempt,
    {
        let x = draw_below(rng, w - PREFAB_SIZE + 1);
        let y = draw_below(rng, h - PREFAB_SIZE + 1);
        if footprint_ok(&m, reserved, x, y, min_dist, max_dist) {
            stamp(grid, reserved, &m, x, y, min_dist, max_dist);
            proof {
                assert(stamped_at(w as int, grid.tiles@, reserved@, x as int, y as int));
                assert(footprint_placeable(
                    w as int,
                    distances(g0, s),
                    r0,
                    x as int,
                    y as int,
                    min_dist as int,
                    max_dist as int,
                ));
                assert forall|i: int|
                    0 <= i < r0.len() && (grid.tiles@[i] != g0.tiles@[i] || reserved@[i] != r0[i]) implies in_square(
                    w as int,
                    x as int,
                    y as int,
                    i,
                ) by {
                    assert(reserved@[i] && in_square(m.width as int, x as int, y as int, i));
                }
                let xi = x as int;
                let yi = y as int;
                assert(0 <= xi && 0 <= yi && xi + PREFAB_SIZE <= old(grid).width && yi + PREFAB_SIZE
                    <= old(grid).height);
                assert(stamped_at(old(grid).width as int, grid.tiles@, reserved@, xi, yi));
                assert(*old(grid) == g0);
                assert(old(reserved)@ == r0);
                assert(g0.index_or_none(start) == s);
                assert(stamped_at(g0.width as int, grid.tiles@, reserved@, xi, yi));
                assert(footprint_placeable(g0.width as int, distances(g0, g0.index_or_none(start)), r0, xi, yi, min_dist as int, max_dist as int));
                assert(changed_within(g0, grid.tiles@, r0, reserved@, xi, yi)) by {
                    assert forall|i: int|
                        0 <= i < r0.len() && (grid.tiles@[i] != g0.tiles@[i] || reserved@[i] != r0[i]) implies #[trigger] in_square(
                        g0.width as int,
                        xi,
                        yi,
                        i,
                    ) by {
                        assert(reserved@[i] && in_square(m.width as int, x as int, y as int, i));
                    }
                }
                assert(xi + PREFAB_SIZE <= g0.width);
                assert(placed_at(
                    g0,
                    grid.tiles@,
                    r0,
                    reserved@,
                    start,
                    min_dist as int,
                    max_dist as int,
                    xi,
                    yi,
                ));
                assert(placed_at(
                    *old(grid),
                    grid.tiles@,
                    old(reserved)@,
                    reserved@,
                    start,
                    min_dist as int,
                    max_dist as int,
                    xi,
                    yi,
                ));
            }
            return true;
        }
        attempt = attempt + 1;
    }
    false
}

/// Writes one tile of the pattern, away from the source, and reserves it.
fn stamp_tile(grid: &mut Grid, reserved: &mut Vec<bool>, m: &DistanceMap, i: usize, kind: TileKind)
    requires
        old(grid).wf(),
        m.wf(),
        m.width == old(grid).width,
        m.height == old(grid).height,
        old(reserved)@.len() == m.dist@.len(),
        i < m.dist@.len(),
        m.dist@[i as int] > 0,
    ensures
        final(grid).wf(),
        final(grid).width == old(grid).width,
        final(grid).height == old(grid).height,
        final(reserved)@.len() == old(reserved)@.len(),
        source_kept(m.dist@, old(grid).tiles@, final(grid).tiles@, old(reserved)@, final(reserved)@),
        final(grid).tiles@ == old(grid).tiles@.update(i as int, kind),
        final(reserved)@ == old(reserved)@.update(i as int, true),
{
    grid.set_index(i, kind);
    reserved.set(i, true);
}

/// The tiles of `g1` and `r1` where `d` is 0 are those of `g0` and `r0`,
/// and every reservation of `r0` is kept.
pub open spec fn source_kept(
    d: Seq<usize>,
    g0: Seq<TileKind>,
    g1: Seq<TileKind>,
    r0: Seq<bool>,
    r1: Seq<bool>,
) -> bool {
    &&& forall|j: int| 0 <= j < d.len() && #[trigger] d[j] == 0 ==> g1[j] == g0[j] && r1[j] == r0[j]
    &&& forall|j: int| 0 <= j < r0.len() && #[trigger] r0[j] ==> r1[j]
}

/// Writes the pattern at `(x, y)` and reserves its tiles.
fn stamp(
    grid: &mut Grid,
    reserved: &mut Vec<bool>,
    m: &DistanceMap,
    x: usize,
    y: usize,
    min_dist: usize,
    max_dist: usize,
)
    requires
        old(grid).wf(),
        m.wf(),
        m.width == old(grid).width,
        m.height == old(grid).height,
        old(reserved)@.len() == m.dist@.len(),
        x + PREFAB_SIZE <= m.width,
        y + PREFAB_SIZE <= m.height,
        footprint_placeable(
            m.width as int,
            m.dist@,
            old(reserved)@,
            x as int,
            y as int,
            min_dist as int,
            max_dist as int,
        ),
    ensures
        final(grid).wf(),
        final(grid).width == old(grid).width,
        final(grid).height == old(grid).height,
        final(reserved)@.len() == old(reserved)@.len(),
        source_kept(m.dist@, old(grid).tiles@, final(grid).tiles@, old(reserved)@, final(reserved)@),
        stamped_at(m.width as int, final(grid).tiles@, final(reserved)@, x as int, y as int),
        forall|j: int|
            0 <= j < old(reserved)@.len() && (final(grid).tiles@[j] != old(grid).tiles@[j]
                || final(reserved)@[j] != old(reserved)@[j]) ==> final(reserved)@[j] && in_square(
                m.width as int,
                x as int,
                y as int,
                j,
            ),
{
    let ghost g0 = grid.tiles@;
    let ghost r0 = reserved@;
    let w = grid.width;
    let mut k: usize = 0;
    while k < PREFAB_SIZE * PREFAB_SIZE
        invariant
            grid.wf(),
            grid.width == w,
            m.wf(),
            m.width == w,
            m.height == grid.height,
            reserved@.len() == m.dist@.len(),
            x + PREFAB_SIZE <= m.width,
            y + PREFAB_SIZE <= m.height,
            footprint_placeable(
                m.width as int,
                m.dist@,
                r0,
                x as int,
                y as int,
                min_dist as int,
                max_dist as int,
            ),
            source_kept(m.dist@, g0, grid.tiles@, r0, reserved@),
            r0.len() == m.dist@.len(),
            k <= PREFAB_SIZE * PREFAB_SIZE,
            forall|kk: int|
                0 <= kk < k ==> grid.tiles@[#[trigger] index_of(w as int, x + kk % 5, y + kk / 5)]
                    == prefab_tile(kk % 5, kk / 5) && reserved@[index_of(
                    w as int,
                    x + kk % 5,
                    y + kk / 5,
                )],
            grid.tiles@.len() == r0.len(),
            g0.len() == r0.len(),
            forall|j: int|
                0 <= j < r0.len() && (grid.tiles@[j] != g0[j] || reserved@[j] != r0[j]) ==> reserved@[j]
                    && exists|kk: int| 0 <= kk < k && j == #[trigger] index_of(w as int, x + kk % 5, y + kk / 5),
        decreases PREFAB_SIZE * PREFAB_SIZE - k,
    {
        let a = k % PREFAB_SIZE;
        let b = k / PREFAB_SIZE;
        proof {
            lemma_index_in_range(m.width as int, m.height as int, (x + a) as int, (y + b) as int);
            assert(placeable(
                m.dist@,
                r0,
                index_of(m.width as int, x + a, y + b),
                min_dist as int,
                max_dist as int,
            ));
        }
        let i = (y + b) * w + (x + a);
        let ghost g1 = grid.tiles@;
        let ghost r1 = reserved@;
        stamp_tile(grid, reserved, m, i, prefab_tile_at(a, b));
        proof {
            assert forall|j: int| 0 <= j < m.dist@.len() && #[trigger] m.dist@[j] == 0 implies grid.tiles@[j]
                == g0[j] && reserved@[j] == r0[j] by {
                assert(g1[j] == g0[j] && r1[j] == r0[j]);
            }
            assert forall|j: int| 0 <= j < r0.len() && #[trigger] r0[j] implies reserved@[j] by {
                assert(r1[j]);
            }
            assert forall|kk: int| 0 <= kk < k + 1 implies grid.tiles@[#[trigger] index_of(
                w as int,
                x + kk % 5,
                y + kk / 5,
            )] == prefab_tile(kk % 5, kk / 5) && reserved@[index_of(w as int, x + kk % 5, y + kk / 5)] by {
                let j = index_of(w as int, x + kk % 5, y + kk / 5);
                if kk < k {
                    lemma_cells_distinct(w as int, x as int, y as int, kk, k as int);
                    lemma_index_in_range(m.width as int, m.height as int, x + kk % 5, y + kk / 5);
                    assert(j != i);
                    assert(g1[j] == prefab_tile(kk % 5, kk / 5) && r1[j]);
                }
            }
            assert forall|j: int|
                0 <= j < r0.len() && (grid.tiles@[j] != g0[j] || reserved@[j] != r0[j]) implies reserved@[j]
                    && exists|kk: int| 0 <= kk < k + 1 && j == #[trigger] index_of(w as int, x + kk % 5, y + kk / 5) by {
                if j == i as int {
                    assert(j == index_of(w as int, x + (k as int) % 5, y + (k as int) / 5));
                } else {
                    assert(g1[j] != g0[j] || r1[j] != r0[j]);
                    let kk = choose|kk: int| 0 <= kk < k && j == #[trigger] index_of(w as int, x + kk % 5, y + kk / 5);
                    assert(0 <= kk < k + 1 && j == index_of(w as int, x + kk % 5, y + kk / 5));
                }
            }
        }
        k = k + 1;
    }
    proof {
        assert forall|a: int, b: int| 0 <= a < PREFAB_SIZE && 0 <= b < PREFAB_SIZE implies grid.tiles@[
            #[trigger] index_of(w as int, x + a, y + b)
        ] == prefab_tile(a, b) && reserved@[index_of(w as int, x + a, y + b)] by {
            let kk = b * 5 + a;
            lemma_fundamental_div_mod_converse(kk, 5, b, a);
            assert(grid.tiles@[index_of(w as int, x + kk % 5, y + kk / 5)] == prefab_tile(
                kk % 5,
                kk / 5,
            ));
        }
        assert forall|j: int|
            0 <= j < r0.len() && (grid.tiles@[j] != g0[j] || reserved@[j] != r0[j]) implies reserved@[j]
                && in_square(w as int, x as int, y as int, j) by {
            let kk = choose|kk: int| 0 <= kk < 25 && j == #[trigger] index_of(w as int, x + kk % 5, y + kk / 5);
            assert(0 <= kk % 5 < 5 && 0 <= kk / 5 < 5);
            assert(j == index_of(w as int, x + kk % 5, y + kk / 5));
        }
    }
}

} // verus!

use vstd::prelude::*;
use vstd::set_lib::{lemma_int_range, lemma_len_subset, set_int_range};
use crate::grid::{Grid, TileKind};
use crate::position::{Position, index_of, position_of, lemma_position_of_index, lemma_index_in_range};

verus! {

/// The distance given to tiles that the source cannot reach.
pub const UNREACHABLE: usize = usize::MAX;

pub open spec fn finite(v: usize) -> bool {
    v != UNREACHABLE
}

/// Tile `i` is one step further than some neighbour that was reached.
pub open spec fn has_parent(g: Grid, d: Seq<usize>, i: int) -> bool {
    exists|p: int| #[trigger] g.adj(p, i) && finite(d[p]) && d[p] + 1 == d[i]
}

/// No Floor neighbour of tile `i` is unreached or more than one step further.
pub open spec fn closed_at(g: Grid, d: Seq<usize>, i: int) -> bool {
    forall|j: int| #[trigger] g.adj(i, j) && g.is_floor(j) ==> finite(d[j]) && d[j] <= d[i] + 1
}

/// Tile `i`, reached, is Floor and its distance is witnessed by a path from `s`.
pub open spec fn reached_well(g: Grid, s: int, d: Seq<usize>, i: int) -> bool {
    &&& g.is_floor(i)
    &&& (d[i] == 0 ==> i == s)
    &&& (d[i] > 0 ==> has_parent(g, d, i))
}

/// `d` gives each tile of `g` its number of steps from tile `s` over Floor
/// tiles, moving west, east, north or south, and UNREACHABLE where no path
/// exists (everywhere, when `s` is no Floor tile of `g`).
pub open spec fn is_distance_map(g: Grid, s: int, d: Seq<usize>) -> bool {
    &&& d.len() == g.size()
    &&& g.is_floor(s) ==> d[s] == 0
    &&& forall|i: int|
        0 <= i < d.len() && finite(#[trigger] d[i]) ==> reached_well(g, s, d, i) && closed_at(
            g,
            d,
            i,
        )
}

/// The distance map of `g` from tile `s`.
pub open spec fn distances(g: Grid, s: int) -> Seq<usize> {
    choose|d: Seq<usize>| is_distance_map(g, s, d)
}

/// Every Floor tile of `g` is reached from tile `s`.
pub open spec fn connected_from(g: Grid, s: int) -> bool {
    forall|i: int| #[trigger] g.is_floor(i) ==> finite(distances(g, s)[i])
}

proof fn lemma_bounded_by(g: Grid, s: int, d1: Seq<usize>, d2: Seq<usize>, i: int)
    requires
        is_distance_map(g, s, d1),
        is_distance_map(g, s, d2),
        0 <= i < d1.len(),
        finite(d1[i]),
    ensures
        finite(d2[i]),
        d2[i] <= d1[i],
    decreases d1[i],
{
    assert(reached_well(g, s, d1, i));
    if d1[i] > 0 {
        let p = choose|p: int| #[trigger] g.adj(p, i) && finite(d1[p]) && d1[p] + 1 == d1[i];
        lemma_bounded_by(g, s, d1, d2, p);
        assert(finite(d2[p]));
        assert(closed_at(g, d2, p));
        assert(g.adj(p, i) && g.is_floor(i));
    }
}

/// A grid and a source have exactly one distance map.
pub proof fn lemma_distance_map_unique(g: Grid, s: int, d1: Seq<usize>, d2: Seq<usize>)
    requires
        is_distance_map(g, s, d1),
        is_distance_map(g, s, d2),
    ensures
        d1 == d2,
{
    assert forall|i: int| 0 <= i < d1.len() implies d1[i] == d2[i] by {
        if finite(d1[i]) {
            lemma_bounded_by(g, s, d1, d2, i);
            lemma_bounded_by(g, s, d2, d1, i);
        } else if finite(d2[i]) {
            lemma_bounded_by(g, s, d2, d1, i);
        }
    }
    assert(d1 =~= d2);
}

/// Whatever satisfies the characterisation is the distance map.
pub proof fn lemma_is_distances(g: Grid, s: int, d: Seq<usize>)
    requires
        is_distance_map(g, s, d),
    ensures
        distances(g, s) == d,
{
    let c = distances(g, s);
    assert(is_distance_map(g, s, c));
    lemma_distance_map_unique(g, s, c, d);
}

/// Every reached tile has a distance of at most `bound` and a witnessing path.
#[verifier::opaque]
pub open spec fn sound(g: Grid, s: int, d: Seq<usize>, bound: int) -> bool {
    forall|i: int|
        0 <= i < d.len() && finite(#[trigger] d[i]) ==> reached_well(g, s, d, i) && d[i] <= bound
}

/// `q` lists exactly the tiles at distance `v`.
#[verifier::opaque]
pub open spec fn layer(d: Seq<usize>, q: Seq<usize>, v: int) -> bool {
    &&& forall|t: int| 0 <= t < q.len() ==> q[t] < d.len() && d[q[t] as int] == v
    &&& forall|i: int| 0 <= i < d.len() && #[trigger] d[i] == v ==> q.contains(i as usize)
}

/// `d1` keeps every distance that `d0` had found and gives the value `v`
/// to any tile that it newly reaches.
#[verifier::opaque]
pub open spec fn grows(d0: Seq<usize>, d1: Seq<usize>, v: int) -> bool {
    &&& d1.len() == d0.len()
    &&& forall|x: int|
        0 <= x < d0.len() ==> (finite(#[trigger] d0[x]) ==> d1[x] == d0[x]) && (!finite(d0[x])
            ==> d1[x] == d0[x] || d1[x] == v)
}

proof fn lemma_grows_trans(d0: Seq<usize>, d1: Seq<usize>, d2: Seq<usize>, v: int)
    requires
        grows(d0, d1, v),
        grows(d1, d2, v),
    ensures
        grows(d0, d2, v),
{
    reveal(grows);
    assert forall|x: int| 0 <= x < d0.len() implies (finite(#[trigger] d0[x]) ==> d2[x] == d0[x])
        && (!finite(d0[x]) ==> d2[x] == d0[x] || d2[x] == v) by {
        assert(finite(d1[x]) ==> d2[x] == d1[x]);
    }
}

proof fn lemma_grows_at(d0: Seq<usize>, d1: Seq<usize>, v: int, x: int)
    requires
        grows(d0, d1, v),
        0 <= x < d0.len(),
    ensures
        finite(d0[x]) ==> d1[x] == d0[x],
        !finite(d0[x]) ==> d1[x] == d0[x] || d1[x] == v,
        d1.len() == d0.len(),
{
    reveal(grows);
}

proof fn lemma_grows_closed(g: Grid, d0: Seq<usize>, d1: Seq<usize>, v: int, x: int)
    requires
        grows(d0, d1, v),
        0 <= x < d0.len(),
        d0.len() == g.size(),
        finite(d0[x]),
        closed_at(g, d0, x),
    ensures
        closed_at(g, d1, x),
{
    reveal(grows);
    assert forall|y: int| #[trigger] g.adj(x, y) && g.is_floor(y) implies finite(d1[y]) && d1[y]
        <= d1[x] + 1 by {
        assert(finite(d0[y]));
    }
}

proof fn lemma_layer_entry(d: Seq<usize>, q: Seq<usize>, v: int, t: int)
    requires
        layer(d, q, v),
        0 <= t < q.len(),
    ensures
        q[t] < d.len(),
        d[q[t] as int] == v,
{
    reveal(layer);
}

proof fn lemma_layer_member(d: Seq<usize>, q: Seq<usize>, v: int, i: int)
    requires
        layer(d, q, v),
        0 <= i < d.len(),
        d[i] == v,
    ensures
        q.contains(i as usize),
{
    reveal(layer);
}

proof fn lemma_sound_at(g: Grid, s: int, d: Seq<usize>, bound: int, i: int)
    requires
        sound(g, s, d, bound),
        0 <= i < d.len(),
        finite(d[i]),
    ensures
        reached_well(g, s, d, i),
        d[i] <= bound,
{
    reveal(sound);
}

proof fn lemma_sound_raise(g: Grid, s: int, d: Seq<usize>, bound: int)
    requires
        sound(g, s, d, bound),
    ensures
        sound(g, s, d, bound + 1),
{
    reveal(sound);
}

/// The tiles that `d` reaches.
pub open spec fn reached_set(d: Seq<usize>) -> Set<int> {
    Set::new(|i: int| 0 <= i < d.len() && finite(d[i]))
}

proof fn lemma_reached_set_bound(d: Seq<usize>)
    ensures
        reached_set(d).finite(),
        reached_set(d).len() <= d.len(),
{
    lemma_int_range(0, d.len() as int);
    assert(reached_set(d).subset_of(set_int_range(0, d.len() as int)));
    lemma_len_subset(reached_set(d), set_int_range(0, d.len() as int));
}

/// Gives tile `j`, a neighbour of tile `p` at distance `k`, the distance
/// `k + 1` and queues it, when it is Floor and not reached yet.
fn reach(
    g: &Grid,
    d: &mut Vec<usize>,
    next: &mut Vec<usize>,
    p: usize,
    j: usize,
    k: usize,
    count: &mut usize,
    Ghost(s): Ghost<int>,
)
    requires
        g.size() < usize::MAX,
        *old(count) == reached_set(old(d)@).len(),
        old(d)@.len() == g.size(),
        j < g.size(),
        p < g.size(),
        g.adj(p as int, j as int),
        k + 1 < UNREACHABLE,
        old(d)@[p as int] == k,
        sound(*g, s, old(d)@, k + 1),
        layer(old(d)@, old(next)@, k + 1),
    ensures
        final(d)@.len() == old(d)@.len(),
        grows(old(d)@, final(d)@, k + 1),
        g.is_floor(j as int) ==> finite(final(d)@[j as int]),
        sound(*g, s, final(d)@, k + 1),
        layer(final(d)@, final(next)@, k + 1),
        *final(count) == reached_set(final(d)@).len(),
        *final(count) <= g.size(),
        *final(count) - *old(count) == final(next)@.len() - old(next)@.len(),
{
    proof {
        lemma_reached_set_bound(d@);
        reveal(grows);
    }
    if g.tiles[j] == TileKind::Floor && d[j] == UNREACHABLE {
        let ghost d0 = d@;
        let ghost q0 = next@;
        d.set(j, k + 1);
        next.push(j);
        proof {
            let d1 = d@;
            assert(reached_set(d1) =~= reached_set(d0).insert(j as int));
            lemma_reached_set_bound(d1);
            reveal(sound);
            reveal(layer);
            assert forall|x: int| 0 <= x < d1.len() && finite(#[trigger] d1[x]) implies reached_well(
                *g,
                s,
                d1,
                x,
            ) && d1[x] <= k + 1 by {
                if x == j {
                    assert(g.adj(p as int, j as int) && finite(d1[p as int]) && d1[p as int] + 1
                        == d1[x]);
                } else {
                    assert(finite(d0[x]));
                    assert(reached_well(*g, s, d0, x));
                    if d0[x] > 0 {
                        let w = choose|w: int| #[trigger]
                            g.adj(w, x) && finite(d0[w]) && d0[w] + 1 == d0[x];
                        assert(g.adj(w, x) && finite(d1[w]) && d1[w] + 1 == d1[x]);
                    }
                }
            }
            assert forall|i: int| 0 <= i < d1.len() && #[trigger] d1[i] == k + 1 implies next@.contains(
                i as usize,
            ) by {
                if i == j {
                    assert(next@[next@.len() - 1] == j);
                } else {
                    assert(d0[i] == k + 1);
                    assert(q0.contains(i as usize));
                    let t = choose|t: int| 0 <= t < q0.len() && q0[t] == i as usize;
                    assert(next@[t] == i as usize);
                }
            }
        }
        *count = *count + 1;
    }
}

/// Reaches the Floor neighbours of tile `i`, at distance `k`, that are not reached yet.
fn expand(
    g: &Grid,
    d: &mut Vec<usize>,
    next: &mut Vec<usize>,
    i: usize,
    k: usize,
    count: &mut usize,
    Ghost(s): Ghost<int>,
)
    requires
        g.wf(),
        *old(count) == reached_set(old(d)@).len(),
        old(d)@.len() == g.size(),
        i < g.size(),
        k + 1 < UNREACHABLE,
        old(d)@[i as int] == k,
        sound(*g, s, old(d)@, k + 1),
        layer(old(d)@, old(next)@, k + 1),
    ensures
        final(d)@.len() == old(d)@.len(),
        grows(old(d)@, final(d)@, k + 1),
        closed_at(*g, final(d)@, i as int),
        sound(*g, s, final(d)@, k + 1),
        layer(final(d)@, final(next)@, k + 1),
        *final(count) == reached_set(final(d)@).len(),
        *final(count) <= g.size(),
        *final(count) - *old(count) == final(next)@.len() - old(next)@.len(),
{
    let n = g.len();
    let w = g.width;
    proof {
        let h = g.height as int;
        assert(w <= n) by (nonlinear_arith)
            requires
                n == w * h,
                h > 0,
        ;
        reveal(grows);
    }
    let ghost d0 = d@;
    let ghost c0 = *count;
    let ghost q0 = next@;
    if i % w != 0 {
        assert(i != 0) by {
            if i == 0 {
                assert(0usize % w == 0);
            }
        }
        assert(g.adj(i as int, i - 1));
        reach(g, d, next, i, i - 1, k, count, Ghost(s));
    }
    let ghost d1 = d@;
    if i + 1 < n && (i + 1) % w != 0 {
        assert(g.adj(i as int, i + 1));
        reach(g, d, next, i, i + 1, k, count, Ghost(s));
    }
    let ghost d2 = d@;
    if i >= w {
        assert(g.adj(i as int, i - w));
        reach(g, d, next, i, i - w, k, count, Ghost(s));
    }
    let ghost d3 = d@;
    if i < n - w {
        assert(g.adj(i as int, i + w));
        reach(g, d, next, i, i + w, k, count, Ghost(s));
    }
    proof {
        let d4 = d@;
        let v = k + 1;
        lemma_reached_set_bound(d4);
        lemma_grows_trans(d0, d1, d2, v);
        lemma_grows_trans(d2, d3, d4, v);
        lemma_grows_trans(d0, d2, d4, v);
        lemma_grows_trans(d1, d2, d3, v);
        lemma_grows_trans(d1, d3, d4, v);
        lemma_grows_at(d0, d4, v, i as int);
        assert forall|j: int| #[trigger] g.adj(i as int, j) && g.is_floor(j) implies finite(d4[j])
            && d4[j] <= d4[i as int] + 1 by {
            let ii = i as int;
            let wi = w as int;
            if j == ii - 1 && ii % wi != 0 {
                lemma_grows_at(d1, d4, k + 1, j);
            } else if j == ii + 1 && j % wi != 0 {
                lemma_grows_at(d2, d4, k + 1, j);
            } else if j == ii - wi {
                lemma_grows_at(d3, d4, k + 1, j);
            }
            lemma_sound_at(*g, s, d4, k + 1, j);
        }
    }
}

/// Distances from one tile to every tile of a grid.
pub struct DistanceMap {
    pub width: usize,
    pub height: usize,
    pub dist: Vec<usize>,
}

impl DistanceMap {
    /// The breadth-first distance map of `g` from `source`: every tile gets
    /// its number of steps from `source` over Floor tiles, or UNREACHABLE.
    pub fn new(g: &Grid, source: Position) -> (r: DistanceMap)
        requires
            g.wf(),
        ensures
            r.width == g.width,
            r.height == g.height,
            r.wf(),
            is_distance_map(*g, g.index_or_none(source), r.dist@),
            r.dist@ == distances(*g, g.index_or_none(source)),
    {
        let n = g.len();
        let w = g.width;
        let mut d: Vec<usize> = Vec::new();
        let mut c: usize = 0;
        while c < n
            invariant
                c <= n,
                d@.len() == c,
                forall|i: int| 0 <= i < c ==> d@[i] == UNREACHABLE,
            decreases n - c,
        {
            d.push(UNREACHABLE);
            c = c + 1;
        }
        let ghost s = g.index_or_none(source);
        let si = match g.index_at(source.x, source.y) {
            Some(si) => si,
            None => {
                proof {
                    lemma_is_distances(*g, s, d@);
                }
                return DistanceMap { width: g.width, height: g.height, dist: d };
            },
        };
        if g.tiles[si] != TileKind::Floor {
            proof {
                lemma_is_distances(*g, s, d@);
            }
            return DistanceMap { width: g.width, height: g.height, dist: d };
        }
        d.set(si, 0);
        let mut frontier: Vec<usize> = Vec::new();
        frontier.push(si);
        let mut k: usize = 0;
        let mut count: usize = 1;
        proof {
            assert(frontier@[0] == si);
            assert(reached_set(d@) =~= set![si as int]);
        }
        proof {
            reveal(sound);
            reveal(layer);
        }
        while frontier.len() > 0
            invariant
                g.wf(),
                n == g.size(),
                w == g.width,
                d@.len() == n,
                s == si as int,
                si < n,
                g.is_floor(s),
                d@[s] == 0,
                sound(*g, s, d@, k as int),
                layer(d@, frontier@, k as int),
                forall|i: int|
                    0 <= i < n && finite(#[trigger] d@[i]) && d@[i] < k ==> closed_at(*g, d@, i),
                count == reached_set(d@).len(),
                count <= n,
                frontier.len() > 0 ==> k < count,
            decreases n - count, frontier.len(),
        {
            let mut next: Vec<usize> = Vec::new();
            let mut t: usize = 0;
            let ghost count0 = count;
            let ghost d_layer = d@;
            proof {
                reveal(layer);
                reveal(grows);
                reveal(sound);
                lemma_sound_raise(*g, s, d@, k as int);
            }
            while t < frontier.len()
                invariant
                    g.wf(),
                    n == g.size(),
                    w == g.width,
                    d@.len() == n,
                    d_layer.len() == n,
                    k < count0,
                    count == count0 + next.len(),
                    t <= frontier.len(),
                    sound(*g, s, d@, k + 1),
                    layer(d_layer, frontier@, k as int),
                    grows(d_layer, d@, k + 1),
                    layer(d@, next@, k + 1),
                    forall|tt: int| 0 <= tt < t ==> closed_at(*g, d@, #[trigger] frontier@[tt] as int),
                    count == reached_set(d@).len(),
                    count <= n,
                decreases frontier.len() - t,
            {
                let i = frontier[t];
                let ghost d_start = d@;
                proof {
                    lemma_layer_entry(d_layer, frontier@, k as int, t as int);
                    lemma_grows_at(d_layer, d@, k + 1, i as int);
                }
                expand(g, &mut d, &mut next, i, k, &mut count, Ghost(s));
                proof {
                    lemma_grows_trans(d_layer, d_start, d@, k + 1);
                    assert forall|tt: int| 0 <= tt < t + 1 implies closed_at(
                        *g,
                        d@,
                        #[trigger] frontier@[tt] as int,
                    ) by {
                        if tt < t {
                            let x = frontier@[tt] as int;
                            lemma_layer_entry(d_layer, frontier@, k as int, tt);
                            lemma_grows_at(d_layer, d_start, k + 1, x);
                            assert(closed_at(*g, d_start, x));
                            lemma_grows_closed(*g, d_start, d@, k + 1, x);
                        }
                    }
                }
                t = t + 1;
            }
            proof {
                assert forall|i: int|
                    0 <= i < n && finite(#[trigger] d@[i]) && d@[i] < k + 1 implies closed_at(
                    *g,
                    d@,
                    i,
                ) by {
                    lemma_grows_at(d_layer, d@, k + 1, i);
                    assert(finite(d_layer[i]));
                    if d@[i] == k {
                        lemma_layer_member(d_layer, frontier@, k as int, i);
                        let tt = choose|tt: int| 0 <= tt < frontier.len() && frontier@[tt] == i as usize;
                        assert(closed_at(*g, d@, frontier@[tt] as int));
                    } else {
                        assert(closed_at(*g, d_layer, i));
                        lemma_grows_closed(*g, d_layer, d@, k + 1, i);
                    }
                }
                if next.len() > 0 {
                    assert(k + 1 < count);
                }
            }
            frontier = next;
            k = k + 1;
        }
        proof {
            assert forall|i: int| 0 <= i < n && finite(#[trigger] d@[i]) implies reached_well(
                *g,
                s,
                d@,
                i,
            ) && closed_at(*g, d@, i) by {
                lemma_sound_at(*g, s, d@, k as int, i);
                if d@[i] == k {
                    lemma_layer_member(d@, frontier@, k as int, i);
                    assert(frontier@.len() > 0);
                }
            }
            lemma_is_distances(*g, s, d@);
        }
        DistanceMap { width: g.width, height: g.height, dist: d }
    }
}


/// The first tile, in row-major order, among those at the greatest finite distance.
pub open spec fn is_furthest(d: Seq<usize>, i: int) -> bool {
    &&& 0 <= i < d.len()
    &&& finite(d[i])
    &&& forall|j: int| 0 <= j < d.len() && finite(#[trigger] d[j]) ==> d[j] <= d[i]
    &&& forall|j: int| 0 <= j < i && finite(#[trigger] d[j]) ==> d[j] < d[i]
}

/// The index of the furthest reached tile, if any tile is reached.
pub open spec fn furthest_index(d: Seq<usize>) -> Option<int> {
    if exists|i: int| is_furthest(d, i) {
        Some(choose|i: int| is_furthest(d, i))
    } else {
        None
    }
}

/// Only one tile is the furthest: the answer depends on the distances alone.
pub proof fn lemma_furthest_unique(d: Seq<usize>, i: int, j: int)
    requires
        is_furthest(d, i),
        is_furthest(d, j),
    ensures
        i == j,
{
    if i < j {
        assert(d[i] < d[j]);
    } else if j < i {
        assert(d[j] < d[i]);
    }
}

/// The source tile is at distance 0 when it is Floor, and no Wall tile is reached.
pub proof fn lemma_source_and_walls(g: Grid, s: int, d: Seq<usize>)
    requires
        is_distance_map(g, s, d),
    ensures
        g.is_floor(s) ==> d[s] == 0,
        forall|i: int| 0 <= i < d.len() && !g.is_floor(i) ==> d[i] == UNREACHABLE,
{
    assert forall|i: int| 0 <= i < d.len() && !g.is_floor(i) implies d[i] == UNREACHABLE by {
        if finite(d[i]) {
            assert(reached_well(g, s, d, i));
        }
    }
}

proof fn lemma_isolated_reaches_only_source(g: Grid, s: int, d: Seq<usize>, i: int)
    requires
        is_distance_map(g, s, d),
        forall|j: int| #[trigger] g.adj(s, j) ==> !g.is_floor(j),
        0 <= i < d.len(),
        finite(d[i]),
    ensures
        i == s,
    decreases d[i],
{
    assert(reached_well(g, s, d, i));
    if d[i] > 0 {
        let p = choose|p: int| #[trigger] g.adj(p, i) && finite(d[p]) && d[p] + 1 == d[i];
        lemma_isolated_reaches_only_source(g, s, d, p);
        assert(g.adj(s, i));
    }
}

/// A Floor source with no Floor neighbour reaches only itself, and so is its
/// own furthest point.
pub proof fn lemma_isolated_source(g: Grid, s: int, d: Seq<usize>)
    requires
        is_distance_map(g, s, d),
        g.is_floor(s),
        forall|j: int| #[trigger] g.adj(s, j) ==> !g.is_floor(j),
    ensures
        forall|i: int| 0 <= i < d.len() && finite(#[trigger] d[i]) ==> i == s,
        furthest_index(d) == Some(s),
{
    assert forall|i: int| 0 <= i < d.len() && finite(#[trigger] d[i]) implies i == s by {
        lemma_isolated_reaches_only_source(g, s, d, i);
    }
    assert(is_furthest(d, s));
    let c = choose|c: int| is_furthest(d, c);
    lemma_furthest_unique(d, s, c);
}

/// Whether a distance counts as far: above the threshold, or unreached when there is none.
pub open spec fn is_far(v: usize, threshold: Option<usize>) -> bool {
    match threshold {
        Some(t) => v > t,
        None => v == UNREACHABLE,
    }
}

/// The indices below `upto` whose distance is far, in increasing order.
pub open spec fn far_indices(d: Seq<usize>, threshold: Option<usize>, upto: int) -> Seq<int>
    decreases upto,
{
    if upto <= 0 {
        Seq::empty()
    } else if is_far(d[upto - 1], threshold) {
        far_indices(d, threshold, upto - 1).push(upto - 1)
    } else {
        far_indices(d, threshold, upto - 1)
    }
}

/// The tiles of `t` with every tile that `d` does not reach turned to Wall.
pub open spec fn sealed(t: Seq<TileKind>, d: Seq<usize>) -> Seq<TileKind> {
    Seq::new(t.len(), |i: int| if finite(d[i]) { t[i] } else { TileKind::Wall })
}

impl DistanceMap {
    pub open spec fn wf(&self) -> bool {
        &&& 0 < self.width
        &&& self.width <= i32::MAX
        &&& self.height <= i32::MAX
        &&& self.width * self.height < usize::MAX
        &&& self.dist@.len() == self.width * self.height
    }

    /// The distance of `p`; a position off the map is unreached.
    pub fn distance(&self, p: Position) -> (r: usize)
        requires
            self.wf(),
        ensures
            r == (if 0 <= p.x < self.width && 0 <= p.y < self.height {
                self.dist@[index_of(self.width as int, p.x as int, p.y as int)]
            } else {
                UNREACHABLE
            }),
    {
        if 0 <= p.x && (p.x as usize) < self.width && 0 <= p.y && (p.y as usize) < self.height {
            proof {
                lemma_index_in_range(self.width as int, self.height as int, p.x as int, p.y as int);
            }
            self.dist[(p.y as usize) * self.width + (p.x as usize)]
        } else {
            UNREACHABLE
        }
    }

    /// The reached tile at the greatest distance, the first in row-major order
    /// on a tie; `None` when nothing is reached.
    pub fn furthest_point(&self) -> (r: Option<Position>)
        requires
            self.wf(),
        ensures
            r == (match furthest_index(self.dist@) {
                Some(i) => Some(position_of(self.width as int, i)),
                None => None::<Position>,
            }),
            r is Some <==> exists|i: int| 0 <= i < self.dist@.len() && finite(self.dist@[i]),
    {
        let n = self.dist.len();
        let mut best: Option<usize> = None;
        let mut i: usize = 0;
        while i < n
            invariant
                n == self.dist@.len(),
                i <= n,
                best matches Some(b) ==> b < i && finite(self.dist@[b as int]) && (forall|j: int|
                    0 <= j < i && finite(#[trigger] self.dist@[j]) ==> self.dist@[j] <= self.dist@[b as int])
                    && (forall|j: int|
                    0 <= j < b && finite(#[trigger] self.dist@[j]) ==> self.dist@[j] < self.dist@[b as int]),
                best is None ==> forall|j: int| 0 <= j < i ==> !finite(#[trigger] self.dist@[j]),
            decreases n - i,
        {
            let v = self.dist[i];
            if v != UNREACHABLE {
                match best {
                    None => {
                        best = Some(i);
                    },
                    Some(b) => {
                        if v > self.dist[b] {
                            best = Some(i);
                        }
                    },
                }
            }
            i = i + 1;
        }
        match best {
            Some(b) => {
                proof {
                    let d = self.dist@;
                    assert(is_furthest(d, b as int));
                    let c = choose|c: int| is_furthest(d, c);
                    lemma_furthest_unique(d, b as int, c);
                    lemma_position_of_index(self.width as int, self.height as int, b as int);
                }
                Some(Position { x: (b % self.width) as i32, y: (b / self.width) as i32 })
            },
            None => {
                proof {
                    assert(!exists|c: int| is_furthest(self.dist@, c));
                }
                None
            },
        }
    }

    /// The far tiles in row-major order: those whose distance exceeds
    /// `threshold`, or, with no threshold, those not reached.
    pub fn far_points(&self, threshold: Option<usize>) -> (r: Vec<Position>)
        requires
            self.wf(),
        ensures
            r@ == far_indices(self.dist@, threshold, self.dist@.len() as int).map(
                |_k: int, i: int| position_of(self.width as int, i),
            ),
    {
        let n = self.dist.len();
        let ghost w = self.width as int;
        let mut r: Vec<Position> = Vec::new();
        let mut i: usize = 0;
        while i < n
            invariant
                self.wf(),
                n == self.dist@.len(),
                i <= n,
                w == self.width,
                r@ == far_indices(self.dist@, threshold, i as int).map(
                    |_k: int, j: int| position_of(w, j),
                ),
            decreases n - i,
        {
            let v = self.dist[i];
            let far = match threshold {
                Some(t) => v > t,
                None => v == UNREACHABLE,
            };
            let ghost before = far_indices(self.dist@, threshold, i as int);
            if far {
                proof {
                    lemma_position_of_index(self.width as int, self.height as int, i as int);
                }
                r.push(Position { x: (i % self.width) as i32, y: (i / self.width) as i32 });
                proof {
                    assert(far_indices(self.dist@, threshold, i + 1) == before.push(i as int));
                    assert(r@ =~= before.push(i as int).map(|_k: int, j: int| position_of(w, j)));
                }
            }
            i = i + 1;
        }
        r
    }
}

/// Sealing keeps the distance map: what was reached is still reached the same way.
pub proof fn lemma_sealed_distances(g: Grid, g2: Grid, s: int, d: Seq<usize>)
    requires
        is_distance_map(g, s, d),
        g2.width == g.width,
        g2.tiles@ == sealed(g.tiles@, d),
    ensures
        is_distance_map(g2, s, d),
        distances(g2, s) == d,
        forall|i: int| #[trigger] g2.is_floor(i) ==> finite(d[i]),
        connected_from(g2, s),
{
    assert forall|i: int| 0 <= i < d.len() && finite(#[trigger] d[i]) implies reached_well(g2, s, d, i)
        && closed_at(g2, d, i) by {
        assert(reached_well(g, s, d, i));
        assert(closed_at(g, d, i));
        if d[i] > 0 {
            let p = choose|p: int| #[trigger] g.adj(p, i) && finite(d[p]) && d[p] + 1 == d[i];
            assert(g2.adj(p, i));
        }
        assert forall|j: int| #[trigger] g2.adj(i, j) && g2.is_floor(j) implies finite(d[j]) && d[j]
            <= d[i] + 1 by {
            assert(g.adj(i, j) && g.is_floor(j));
        }
    }
    if g2.is_floor(s) {
        assert(g.is_floor(s));
    }
    lemma_is_distances(g2, s, d);
}

/// Sealing a grid a second time from the same source seals no further tile.
pub proof fn lemma_seal_idempotent(g: Grid, s: int, d: Seq<usize>, g2: Grid)
    requires
        is_distance_map(g, s, d),
        g2.width == g.width,
        g2.tiles@ == sealed(g.tiles@, d),
    ensures
        sealed(g2.tiles@, distances(g2, s)) == g2.tiles@,
{
    lemma_sealed_distances(g, g2, s, d);
    assert(sealed(g2.tiles@, d) =~= g2.tiles@);
}

impl Grid {
    /// Turns every tile that `source` cannot reach into Wall; afterwards
    /// every Floor tile is reached from `source`.
    pub fn seal_unreachable(&mut self, source: Position)
        requires
            old(self).wf(),
        ensures
            final(self).wf(),
            final(self).width == old(self).width,
            final(self).height == old(self).height,
            final(self).tiles@ == sealed(
                old(self).tiles@,
                distances(*old(self), old(self).index_or_none(source)),
            ),
            distances(*final(self), final(self).index_or_none(source)) == distances(
                *old(self),
                old(self).index_or_none(source),
            ),
            connected_from(*final(self), final(self).index_or_none(source)),
            old(self).enterable(source) ==> final(self).enterable(source),
    {
        let m = DistanceMap::new(self, source);
        let ghost g0 = *self;
        let ghost d = m.dist@;
        let n = self.len();
        let mut i: usize = 0;
        while i < n
            invariant
                self.wf(),
                self.width == g0.width,
                self.height == g0.height,
                n == self.size(),
                m.dist@ == d,
                d.len() == n,
                g0.tiles@.len() == n,
                i <= n,
                forall|j: int| 0 <= j < i ==> self.tiles@[j] == sealed(g0.tiles@, d)[j],
                forall|j: int| i <= j < n ==> self.tiles@[j] == g0.tiles@[j],
            decreases n - i,
        {
            if m.dist[i] == UNREACHABLE {
                self.set_index(i, TileKind::Wall);
            }
            i = i + 1;
        }
        proof {
            assert(self.tiles@ =~= sealed(g0.tiles@, d));
            if g0.enterable(source) {
                lemma_index_in_range(g0.width as int, g0.height as int, source.x as int, source.y as int);
                assert(g0.is_floor(g0.index_or_none(source)));
            }
            lemma_sealed_distances(g0, *self, g0.index_or_none(source), d);
        }
    }
}
/// `path` is a walk over Floor tiles, each step to a west, east, north or
/// south neighbour.
pub open spec fn is_path(g: Grid, path: Seq<int>) -> bool {
    &&& path.len() >= 1
    &&& forall|k: int| 0 <= k < path.len() ==> g.is_floor(#[trigger] path[k])
    &&& forall|k: int| 0 <= k < path.len() - 1 ==> g.adj(#[trigger] path[k], path[k + 1])
}

proof fn lemma_adj_symmetric(g: Grid, i: int, j: int)
    requires
        g.wf(),
        g.adj(i, j),
    ensures
        g.adj(j, i),
{
}

/// A path from the source to every reached tile.
proof fn path_from_source(g: Grid, s: int, d: Seq<usize>, i: int) -> (path: Seq<int>)
    requires
        is_distance_map(g, s, d),
        0 <= i < d.len(),
        finite(d[i]),
    ensures
        is_path(g, path),
        path[0] == s,
        path[path.len() - 1] == i,
    decreases d[i],
{
    assert(reached_well(g, s, d, i));
    if d[i] == 0 {
        seq![i]
    } else {
        let p = choose|p: int| #[trigger] g.adj(p, i) && finite(d[p]) && d[p] + 1 == d[i];
        let prefix = path_from_source(g, s, d, p);
        let path = prefix.push(i);
        assert forall|k: int| 0 <= k < path.len() - 1 implies g.adj(#[trigger] path[k], path[k + 1]) by {
            if k < prefix.len() - 1 {
                assert(path[k] == prefix[k] && path[k + 1] == prefix[k + 1]);
            }
        }
        assert forall|k: int| 0 <= k < path.len() implies g.is_floor(#[trigger] path[k]) by {
            if k < prefix.len() {
                assert(path[k] == prefix[k]);
            }
        }
        path
    }
}

/// Two paths that leave one tile join, the first walked backwards, into a
/// path between their far ends.
proof fn lemma_join_paths(g: Grid, a: Seq<int>, b: Seq<int>)
    requires
        g.wf(),
        is_path(g, a),
        is_path(g, b),
        a[0] == b[0],
    ensures
        exists|path: Seq<int>|
            #[trigger] is_path(g, path) && path[0] == a[a.len() - 1] && path[path.len() - 1] == b[b.len() - 1],
{
    let ra = Seq::new(a.len(), |k: int| a[a.len() - 1 - k]);
    let path = ra + b.subrange(1, b.len() as int);
    assert forall|k: int| 0 <= k < path.len() implies g.is_floor(#[trigger] path[k]) by {
        if k < ra.len() {
            assert(path[k] == a[a.len() - 1 - k]);
        } else {
            assert(path[k] == b[k - ra.len() + 1]);
        }
    }
    assert forall|k: int| 0 <= k < path.len() - 1 implies g.adj(#[trigger] path[k], path[k + 1]) by {
        if k < ra.len() - 1 {
            let m = a.len() - 2 - k;
            assert(path[k] == a[m + 1] && path[k + 1] == a[m]);
            assert(g.adj(a[m], a[m + 1]));
            lemma_adj_symmetric(g, a[m], a[m + 1]);
        } else if k == ra.len() - 1 {
            assert(path[k] == a[0]);
            assert(path[k + 1] == b[1]);
            assert(g.adj(b[0], b[1]));
        } else {
            let m = k - ra.len() + 1;
            assert(path[k] == b[m] && path[k + 1] == b[m + 1]);
        }
    }
    assert(path[0] == a[a.len() - 1]);
    if b.len() == 1 {
        assert(path[path.len() - 1] == a[0]);
    } else {
        assert(path[path.len() - 1] == b[b.len() - 1]);
    }
    assert(is_path(g, path));
}

/// When every Floor tile is reached from the source, any two Floor tiles
/// are joined by a path over Floor tiles: the Floor forms one region.
pub proof fn lemma_floor_pairwise_linked(g: Grid, s: int, d: Seq<usize>, p: int, q: int)
    requires
        g.wf(),
        is_distance_map(g, s, d),
        forall|i: int| #[trigger] g.is_floor(i) ==> finite(d[i]),
        g.is_floor(p),
        g.is_floor(q),
    ensures
        exists|path: Seq<int>| #[trigger] is_path(g, path) && path[0] == p && path[path.len() - 1] == q,
{
    let a = path_from_source(g, s, d, p);
    let b = path_from_source(g, s, d, q);
    lemma_join_paths(g, a, b);
}

} // verus!

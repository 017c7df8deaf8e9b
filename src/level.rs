use vstd::prelude::*;
use bevy_turborand::RngComponent;
use crate::architect::{
    Architect, ArchitectSettings, Layout, Room, build_automata, build_drunkard, build_empty,
    build_standard, center_of, dims_ok, strategy_result, DRUNKARD_COVERAGE_PERCENT,
};
use crate::distance::{
    is_path, lemma_floor_pairwise_linked,
    DistanceMap, connected_from, distances, finite, furthest_index, is_distance_map, is_furthest,
    sealed,
};
use crate::grid::{Grid, GridError, dimensions_fit};
use crate::position::{Position, lemma_index_injective, lemma_position_of_index};
use crate::prefab::{apply_prefab, placed_at};
use crate::spawn::{candidates_upto, entity_spawns, is_candidate, lemma_candidates};
use vstd::string::StringExecFns;

verus! {

/// How many places the prefab overlay tries.
pub const MAX_ATTEMPTS: usize = 10;
/// The prefab lies at least this many steps from the player start.
pub const PREFAB_MIN_DISTANCE: usize = 20;
/// The prefab lies at most this many steps from the player start.
pub const PREFAB_MAX_DISTANCE: usize = 2000;

/// Lays out the map with the strategy that `settings` names.
pub fn build_layout(settings: &ArchitectSettings, height: usize, width: usize, rng: &mut RngComponent) -> (r: Layout)
    requires
        dims_ok(width as int, height as int),
    ensures
        r.wf(width as int, height as int),
        strategy_result(settings.architect, width as int, height as int, r.grid, r.rooms@, r.start),
{
    match settings.architect {
        Architect::Empty => build_empty(height, width),
        Architect::Standard => build_standard(height, width, rng),
        Architect::Automata => build_automata(height, width, rng),
        Architect::Drunkard => build_drunkard(height, width, DRUNKARD_COVERAGE_PERCENT, rng),
    }
}

/// A generated level: the map, the rooms it was laid out with, where the
/// player starts, where the exit item lies, and where monsters, items and
/// npcs are to be spawned.
pub struct MapBuilder {
    pub map: Grid,
    pub rooms: Vec<Room>,
    pub monster_spawns: Vec<Position>,
    pub item_spawns: Vec<Position>,
    pub npc_spawns: Vec<Position>,
    pub player_start: Position,
    pub winitem_start: Position,
    /// The tiles under the prefab, kept free of spawns.
    pub reserved: Vec<bool>,
}

/// `mb` came from the layout `g0` of strategy `a`, with `mb.rooms` and
/// `mb.player_start`: the prefab changed only reserved tiles, giving `g1`,
/// and sealing `g1` from the start gave the map.
pub open spec fn built_from(a: Architect, width: int, height: int, mb: MapBuilder, g0: Grid, g1: Grid) -> bool {
    &&& g0.wf()
    &&& g0.width == width
    &&& g0.height == height
    &&& strategy_result(a, width, height, g0, mb.rooms@, mb.player_start)
    &&& g1.wf()
    &&& g1.width == width
    &&& g1.height == height
    &&& forall|i: int| 0 <= i < g0.size() && !mb.reserved@[i] ==> g1.tiles@[i] == g0.tiles@[i]
    &&& mb.map.tiles@ == sealed(g1.tiles@, distances(g1, g1.index_or_none(mb.player_start)))
    &&& mb.reserved@.len() == g0.size()
    &&& prefab_outcome(g0, g1, mb.reserved@, mb.player_start)
}

/// No reservation on any of `n` tiles.
pub open spec fn no_reservation(n: int) -> Seq<bool> {
    Seq::new(n as nat, |i: int| false)
}

/// Either the prefab was not placed (`g1` is `g0` and nothing is reserved),
/// or it went to some place and `reserved` is exactly its footprint.
pub open spec fn prefab_outcome(g0: Grid, g1: Grid, reserved: Seq<bool>, start: Position) -> bool {
    ||| (g1.tiles@ == g0.tiles@ && forall|i: int| 0 <= i < reserved.len() ==> !reserved[i])
    ||| exists|x: int, y: int|
        #[trigger] placed_at(
            g0,
            g1.tiles@,
            no_reservation(g0.size()),
            reserved,
            start,
            PREFAB_MIN_DISTANCE as int,
            PREFAB_MAX_DISTANCE as int,
            x,
            y,
        )
}

/// Marks every tile of `idx` as reserved.
fn reserve_all(reserved: &mut Vec<bool>, idx: &Vec<usize>)
    requires
        forall|k: int| 0 <= k < idx@.len() ==> #[trigger] idx@[k] < old(reserved)@.len(),
    ensures
        final(reserved)@.len() == old(reserved)@.len(),
        forall|k: int| 0 <= k < idx@.len() ==> final(reserved)@[#[trigger] idx@[k] as int],
        forall|j: int| 0 <= j < old(reserved)@.len() && #[trigger] old(reserved)@[j] ==> final(reserved)@[j],
        forall|j: int|
            0 <= j < old(reserved)@.len() && #[trigger] final(reserved)@[j] ==> old(reserved)@[j]
                || idx@.contains(j as usize),
{
    let ghost r0 = reserved@;
    let mut k: usize = 0;
    while k < idx.len()
        invariant
            forall|q: int| 0 <= q < idx@.len() ==> #[trigger] idx@[q] < r0.len(),
            reserved@.len() == r0.len(),
            k <= idx@.len(),
            forall|q: int| 0 <= q < k ==> reserved@[#[trigger] idx@[q] as int],
            forall|j: int| 0 <= j < r0.len() && #[trigger] r0[j] ==> reserved@[j],
            forall|j: int|
                0 <= j < r0.len() && #[trigger] reserved@[j] ==> r0[j] || exists|q: int|
                    0 <= q < k && idx@[q] == j as usize,
        decreases idx@.len() - k,
    {
        let i = idx[k];
        reserved.set(i, true);
        proof {
            assert forall|j: int| 0 <= j < r0.len() && #[trigger] reserved@[j] implies r0[j] || exists|q: int|
                0 <= q < k + 1 && idx@[q] == j as usize by {
                if j == i as int {
                    assert(idx@[k as int] == j as usize);
                }
            }
        }
        k = k + 1;
    }
}

/// The positions of the tiles at the indices `idx`.
fn positions_of(g: &Grid, idx: &Vec<usize>) -> (r: Vec<Position>)
    requires
        g.wf(),
        forall|k: int| 0 <= k < idx@.len() ==> #[trigger] idx@[k] < g.size(),
    ensures
        r@.len() == idx@.len(),
        forall|k: int|
            0 <= k < r@.len() ==> #[trigger] g.index_spec(r@[k]) == idx@[k] && g.in_bounds(
                r@[k].x as int,
                r@[k].y as int,
            ),
{
    let mut r: Vec<Position> = Vec::new();
    let mut k: usize = 0;
    while k < idx.len()
        invariant
            g.wf(),
            forall|q: int| 0 <= q < idx@.len() ==> #[trigger] idx@[q] < g.size(),
            k <= idx@.len(),
            r@.len() == k,
            forall|q: int|
                0 <= q < k ==> #[trigger] g.index_spec(r@[q]) == idx@[q] && g.in_bounds(
                    r@[q].x as int,
                    r@[q].y as int,
                ),
        decreases idx@.len() - k,
    {
        assert(idx@[k as int] < g.size());
        let p = g.position_at(idx[k]);
        r.push(p);
        k = k + 1;
    }
    r
}

impl MapBuilder {
    pub open spec fn start_index(&self) -> int {
        self.map.index_spec(self.player_start)
    }

    /// Distances from the player start.
    pub open spec fn dist_spec(&self) -> Seq<usize> {
        distances(self.map, self.start_index())
    }

    pub open spec fn dist_to(&self, p: Position) -> usize {
        self.dist_spec()[self.map.index_spec(p)]
    }

    /// `p` may hold a spawn: Floor, reached in more than `threshold` steps,
    /// and neither the player start nor the exit.
    pub open spec fn spawn_ok(&self, p: Position, threshold: int) -> bool {
        &&& self.map.enterable(p)
        &&& finite(self.dist_to(p))
        &&& self.dist_to(p) > threshold
        &&& p != self.player_start
        &&& p != self.winitem_start
    }

    /// `p` may hold a spawn and is not under the prefab.
    pub open spec fn free_candidate(&self, p: Position, threshold: int) -> bool {
        &&& self.spawn_ok(p, threshold)
        &&& !self.reserved@[self.map.index_spec(p)]
    }

    pub open spec fn spawns_ok(&self, v: Seq<Position>, threshold: int) -> bool {
        &&& v.no_duplicates()
        &&& forall|k: int| 0 <= k < v.len() ==> self.spawn_ok(#[trigger] v[k], threshold)
        &&& forall|k: int| 0 <= k < v.len() ==> !self.reserved@[self.map.index_spec(#[trigger] v[k])]
    }

    /// What every generated level satisfies: start and exit are Floor, the
    /// exit is the furthest tile from the start, every Floor tile is reached
    /// from the start, and the spawns are valid and pairwise distinct.
    pub open spec fn wf(&self, threshold: int) -> bool {
        &&& self.map.wf()
        &&& self.reserved@.len() == self.map.size()
        &&& self.map.enterable(self.player_start)
        &&& self.map.enterable(self.winitem_start)
        &&& is_distance_map(self.map, self.start_index(), self.dist_spec())
        &&& connected_from(self.map, self.start_index())
        &&& furthest_index(self.dist_spec()) == Some(self.map.index_spec(self.winitem_start))
        &&& finite(self.dist_to(self.winitem_start))
        &&& self.spawns_ok(self.monster_spawns@, threshold)
        &&& self.spawns_ok(self.item_spawns@, threshold)
        &&& self.spawns_ok(self.npc_spawns@, threshold)
        &&& self.monster_spawns@.disjoint(self.item_spawns@)
        &&& self.monster_spawns@.disjoint(self.npc_spawns@)
        &&& self.item_spawns@.disjoint(self.npc_spawns@)
    }

    /// Turns every tile that the player start cannot reach into Wall.
    pub fn fill_in_unreachable(&mut self)
        requires
            old(self).map.wf(),
        ensures
            final(self).map.wf(),
            final(self).map.width == old(self).map.width,
            final(self).map.height == old(self).map.height,
            final(self).map.tiles@ == sealed(
                old(self).map.tiles@,
                distances(old(self).map, old(self).map.index_or_none(old(self).player_start)),
            ),
            connected_from(final(self).map, final(self).map.index_or_none(final(self).player_start)),
            old(self).map.enterable(old(self).player_start) ==> final(self).map.enterable(
                final(self).player_start,
            ),
            final(self).player_start == old(self).player_start,
            final(self).winitem_start == old(self).winitem_start,
            final(self).rooms@ == old(self).rooms@,
            final(self).monster_spawns@ == old(self).monster_spawns@,
            final(self).item_spawns@ == old(self).item_spawns@,
            final(self).npc_spawns@ == old(self).npc_spawns@,
            final(self).reserved@ == old(self).reserved@,
            distances(final(self).map, final(self).map.index_or_none(final(self).player_start))
                == distances(old(self).map, old(self).map.index_or_none(old(self).player_start)),
    {
        let start = self.player_start;
        self.map.seal_unreachable(start);
    }

    /// The reached tile furthest from the player start (first in row-major
    /// order on a tie), if any.
    pub fn find_most_distant(&self) -> (r: Option<Position>)
        requires
            self.map.wf(),
        ensures
            r == (match furthest_index(distances(self.map, self.map.index_or_none(self.player_start))) {
                Some(i) => Some(self.map.position_spec(i)),
                None => None::<Position>,
            }),
    {
        let m = DistanceMap::new(&self.map, self.player_start);
        m.furthest_point()
    }
}

/// Spawn tiles drawn from the candidates, at positions `pos`, are valid spawns.
proof fn lemma_spawn_positions(
    mb: MapBuilder,
    idx: Seq<usize>,
    pos: Seq<Position>,
    reserved: Seq<bool>,
    threshold: int,
)
    requires
        mb.map.wf(),
        mb.map.in_bounds(mb.player_start.x as int, mb.player_start.y as int),
        mb.map.in_bounds(mb.winitem_start.x as int, mb.winitem_start.y as int),
        pos.len() == idx.len(),
        forall|k: int|
            0 <= k < pos.len() ==> #[trigger] mb.map.index_spec(pos[k]) == idx[k] && mb.map.in_bounds(
                pos[k].x as int,
                pos[k].y as int,
            ),
        idx.no_duplicates(),
        forall|k: int|
            0 <= k < idx.len() ==> is_candidate(
                mb.map,
                mb.dist_spec(),
                reserved,
                threshold,
                #[trigger] idx[k] as int,
            ),
        reserved[mb.start_index()],
        reserved[mb.map.index_spec(mb.winitem_start)],
        reserved.len() == mb.map.size(),
        mb.reserved@.len() == mb.map.size(),
        forall|j: int| 0 <= j < reserved.len() && #[trigger] mb.reserved@[j] ==> reserved[j],
    ensures
        mb.spawns_ok(pos, threshold),
{
    assert forall|k: int| 0 <= k < pos.len() implies mb.spawn_ok(#[trigger] pos[k], threshold) by {
        assert(mb.map.index_spec(pos[k]) == idx[k]);
        assert(is_candidate(mb.map, mb.dist_spec(), reserved, threshold, idx[k] as int));
    }
    assert forall|k: int| 0 <= k < pos.len() implies !mb.reserved@[mb.map.index_spec(#[trigger] pos[k])] by {
        assert(mb.map.index_spec(pos[k]) == idx[k]);
        assert(is_candidate(mb.map, mb.dist_spec(), reserved, threshold, idx[k] as int));
        if mb.reserved@[idx[k] as int] {
            assert(reserved[idx[k] as int]);
        }
    }
    assert forall|a: int, b: int| 0 <= a < pos.len() && 0 <= b < pos.len() && a != b implies pos[a]
        != pos[b] by {
        assert(mb.map.index_spec(pos[a]) == idx[a]);
        assert(mb.map.index_spec(pos[b]) == idx[b]);
    }
}

/// Positions of tiles reserved before a draw are apart from positions drawn
/// among the unreserved tiles.
proof fn lemma_disjoint_positions(
    g: Grid,
    idx1: Seq<usize>,
    pos1: Seq<Position>,
    idx2: Seq<usize>,
    pos2: Seq<Position>,
    reserved: Seq<bool>,
)
    requires
        pos1.len() == idx1.len(),
        pos2.len() == idx2.len(),
        forall|k: int| 0 <= k < pos1.len() ==> #[trigger] g.index_spec(pos1[k]) == idx1[k],
        forall|k: int| 0 <= k < pos2.len() ==> #[trigger] g.index_spec(pos2[k]) == idx2[k],
        forall|k: int| 0 <= k < idx1.len() ==> reserved[#[trigger] idx1[k] as int],
        forall|k: int| 0 <= k < idx2.len() ==> !reserved[#[trigger] idx2[k] as int],
    ensures
        pos1.disjoint(pos2),
{
    assert forall|a: int, b: int| 0 <= a < pos1.len() && 0 <= b < pos2.len() implies pos1[a]
        != pos2[b] by {
        assert(g.index_spec(pos1[a]) == idx1[a]);
        assert(g.index_spec(pos2[b]) == idx2[b]);
        assert(reserved[idx1[a] as int]);
        assert(!reserved[idx2[b] as int]);
    }
}

/// A copy of `v`.
fn copy_mask(v: &Vec<bool>) -> (r: Vec<bool>)
    ensures
        r@ == v@,
{
    let mut r: Vec<bool> = Vec::new();
    let mut k: usize = 0;
    while k < v.len()
        invariant
            k <= v@.len(),
            r@ == v@.subrange(0, k as int),
        decreases v@.len() - k,
    {
        r.push(v[k]);
        proof {
            assert(r@ =~= v@.subrange(0, k + 1));
        }
        k = k + 1;
    }
    proof {
        assert(r@ =~= v@);
    }
    r
}

/// When fewer tiles were drawn than asked for, every candidate was drawn.
proof fn lemma_all_drawn(g: Grid, d: Seq<usize>, reserved: Seq<bool>, t: int, amount: int, r: Seq<usize>)
    requires
        g.wf(),
        d.len() == g.size(),
        reserved.len() == g.size(),
        r.len() == (if amount < candidates_upto(g, d, reserved, t, g.size()).len() {
            amount
        } else {
            candidates_upto(g, d, reserved, t, g.size()).len() as int
        }),
        amount >= candidates_upto(g, d, reserved, t, g.size()).len() ==> r.to_set()
            == candidates_upto(g, d, reserved, t, g.size()).to_set(),
        r.len() < amount,
    ensures
        forall|i: int| 0 <= i < g.size() && is_candidate(g, d, reserved, t, i) ==> r.contains(i as usize),
{
    let pool = candidates_upto(g, d, reserved, t, g.size());
    lemma_candidates(g, d, reserved, t, g.size());
    assert forall|i: int| 0 <= i < g.size() && is_candidate(g, d, reserved, t, i) implies r.contains(
        i as usize,
    ) by {
        assert(pool.contains(i as usize));
        assert(pool.to_set().contains(i as usize));
        assert(r.to_set().contains(i as usize));
    }
}

/// Every free candidate that no earlier list took is among the drawn positions,
/// when the draw took every candidate.
proof fn lemma_free_candidates_drawn(
    mb: MapBuilder,
    idx: Seq<usize>,
    pos: Seq<Position>,
    res: Seq<bool>,
    t: int,
    earlier: Seq<Position>,
)
    requires
        mb.map.wf(),
        mb.reserved@.len() == mb.map.size(),
        res.len() == mb.map.size(),
        mb.map.in_bounds(mb.player_start.x as int, mb.player_start.y as int),
        mb.map.in_bounds(mb.winitem_start.x as int, mb.winitem_start.y as int),
        forall|k: int|
            0 <= k < earlier.len() ==> mb.map.in_bounds(
                (#[trigger] earlier[k]).x as int,
                earlier[k].y as int,
            ),
        forall|j: int|
            0 <= j < res.len() && #[trigger] res[j] ==> mb.reserved@[j] || j == mb.start_index() || j
                == mb.map.index_spec(mb.winitem_start) || exists|k: int|
                0 <= k < earlier.len() && mb.map.index_spec(earlier[k]) == j,
        forall|i: int|
            0 <= i < mb.map.size() && is_candidate(mb.map, mb.dist_spec(), res, t, i) ==> idx.contains(
                i as usize,
            ),
        pos.len() == idx.len(),
        forall|k: int|
            0 <= k < pos.len() ==> #[trigger] mb.map.index_spec(pos[k]) == idx[k] && mb.map.in_bounds(
                pos[k].x as int,
                pos[k].y as int,
            ),
    ensures
        forall|p: Position| mb.free_candidate(p, t) && !earlier.contains(p) ==> pos.contains(p),
{
    let w = mb.map.width as int;
    let h = mb.map.height as int;
    assert forall|p: Position| mb.free_candidate(p, t) && !earlier.contains(p) implies pos.contains(p) by {
        let i = mb.map.index_spec(p);
        crate::position::lemma_index_in_range(w, h, p.x as int, p.y as int);
        if res[i] {
            if i == mb.start_index() {
                lemma_index_injective(w, h, p, mb.player_start);
            } else if i == mb.map.index_spec(mb.winitem_start) {
                lemma_index_injective(w, h, p, mb.winitem_start);
            } else if !mb.reserved@[i] {
                let k = choose|k: int| 0 <= k < earlier.len() && mb.map.index_spec(earlier[k]) == i;
                lemma_index_injective(w, h, p, earlier[k]);
                assert(earlier.contains(p));
            }
        }
        assert(is_candidate(mb.map, mb.dist_spec(), res, t, i));
        assert(idx.contains(i as usize));
        let k = choose|k: int| 0 <= k < idx.len() && idx[k] == i as usize;
        assert(mb.map.index_spec(pos[k]) == idx[k]);
        lemma_index_injective(w, h, p, pos[k]);
        assert(pos[k] == p);
    }
}

/// A category holds fewer spawns than asked for only when it took every
/// free candidate that the earlier categories left.
proof fn lemma_counts_exhausted(
    mb: MapBuilder,
    architect: &ArchitectSettings,
    d: Seq<usize>,
    mi: Seq<usize>,
    ii: Seq<usize>,
    ni: Seq<usize>,
    res_m: Seq<bool>,
    res_i: Seq<bool>,
    res_n: Seq<bool>,
)
    requires
        mb.map.wf(),
        mb.reserved@.len() == mb.map.size(),
        d == mb.dist_spec(),
        d.len() == mb.map.size(),
        mb.map.in_bounds(mb.player_start.x as int, mb.player_start.y as int),
        mb.map.in_bounds(mb.winitem_start.x as int, mb.winitem_start.y as int),
        res_m.len() == mb.map.size(),
        res_i.len() == mb.map.size(),
        res_n.len() == mb.map.size(),
        forall|j: int|
            0 <= j < res_m.len() && #[trigger] res_m[j] ==> mb.reserved@[j] || j == mb.start_index() || j
                == mb.map.index_spec(mb.winitem_start),
        forall|j: int| 0 <= j < res_i.len() && #[trigger] res_i[j] ==> res_m[j] || mi.contains(j as usize),
        forall|j: int| 0 <= j < res_n.len() && #[trigger] res_n[j] ==> res_i[j] || ii.contains(j as usize),
        mb.monster_spawns@.len() == mi.len(),
        mb.item_spawns@.len() == ii.len(),
        mb.npc_spawns@.len() == ni.len(),
        forall|k: int|
            0 <= k < mi.len() ==> #[trigger] mb.map.index_spec(mb.monster_spawns@[k]) == mi[k]
                && mb.map.in_bounds(mb.monster_spawns@[k].x as int, mb.monster_spawns@[k].y as int),
        forall|k: int|
            0 <= k < ii.len() ==> #[trigger] mb.map.index_spec(mb.item_spawns@[k]) == ii[k]
                && mb.map.in_bounds(mb.item_spawns@[k].x as int, mb.item_spawns@[k].y as int),
        forall|k: int|
            0 <= k < ni.len() ==> #[trigger] mb.map.index_spec(mb.npc_spawns@[k]) == ni[k]
                && mb.map.in_bounds(mb.npc_spawns@[k].x as int, mb.npc_spawns@[k].y as int),
        mi.len() == (if architect.num_monsters < candidates_upto(mb.map, d, res_m, architect.entity_distance as int, mb.map.size()).len() {
            architect.num_monsters as int
        } else {
            candidates_upto(mb.map, d, res_m, architect.entity_distance as int, mb.map.size()).len() as int
        }),
        architect.num_monsters >= candidates_upto(mb.map, d, res_m, architect.entity_distance as int, mb.map.size()).len()
            ==> mi.to_set() == candidates_upto(mb.map, d, res_m, architect.entity_distance as int, mb.map.size()).to_set(),
        ii.len() == (if architect.num_items < candidates_upto(mb.map, d, res_i, architect.entity_distance as int, mb.map.size()).len() {
            architect.num_items as int
        } else {
            candidates_upto(mb.map, d, res_i, architect.entity_distance as int, mb.map.size()).len() as int
        }),
        architect.num_items >= candidates_upto(mb.map, d, res_i, architect.entity_distance as int, mb.map.size()).len()
            ==> ii.to_set() == candidates_upto(mb.map, d, res_i, architect.entity_distance as int, mb.map.size()).to_set(),
        ni.len() == (if architect.num_npcs < candidates_upto(mb.map, d, res_n, architect.entity_distance as int, mb.map.size()).len() {
            architect.num_npcs as int
        } else {
            candidates_upto(mb.map, d, res_n, architect.entity_distance as int, mb.map.size()).len() as int
        }),
        architect.num_npcs >= candidates_upto(mb.map, d, res_n, architect.entity_distance as int, mb.map.size()).len()
            ==> ni.to_set() == candidates_upto(mb.map, d, res_n, architect.entity_distance as int, mb.map.size()).to_set(),
    ensures
        mb.monster_spawns@.len() < architect.num_monsters ==> forall|p: Position|
            mb.free_candidate(p, architect.entity_distance as int) ==> mb.monster_spawns@.contains(p),
        mb.item_spawns@.len() < architect.num_items ==> forall|p: Position|
            mb.free_candidate(p, architect.entity_distance as int) && !mb.monster_spawns@.contains(p)
                ==> mb.item_spawns@.contains(p),
        mb.npc_spawns@.len() < architect.num_npcs ==> forall|p: Position|
            mb.free_candidate(p, architect.entity_distance as int) && !mb.monster_spawns@.contains(p)
                && !mb.item_spawns@.contains(p) ==> mb.npc_spawns@.contains(p),
{
        let t = architect.entity_distance as int;
        let none: Seq<Position> = Seq::empty();
        let ms = mb.monster_spawns@;
        let its = mb.item_spawns@;
        assert forall|j: int| 0 <= j < res_m.len() && #[trigger] res_m[j] implies mb.reserved@[j] || j
            == mb.start_index() || j == mb.map.index_spec(mb.winitem_start) || exists|k: int|
            0 <= k < none.len() && mb.map.index_spec(none[k]) == j by {}
        assert forall|j: int| 0 <= j < res_i.len() && #[trigger] res_i[j] implies mb.reserved@[j] || j
            == mb.start_index() || j == mb.map.index_spec(mb.winitem_start) || exists|k: int|
            0 <= k < ms.len() && mb.map.index_spec(ms[k]) == j by {
            if !res_m[j] {
                assert(mi.contains(j as usize));
                let k = choose|k: int| 0 <= k < mi.len() && mi[k] == j as usize;
                assert(mb.map.index_spec(ms[k]) == mi[k]);
            }
        }
        let both = ms + its;
        assert forall|j: int| 0 <= j < res_n.len() && #[trigger] res_n[j] implies mb.reserved@[j] || j
            == mb.start_index() || j == mb.map.index_spec(mb.winitem_start) || exists|k: int|
            0 <= k < both.len() && mb.map.index_spec(both[k]) == j by {
            if !res_i[j] {
                assert(ii.contains(j as usize));
                let k = choose|k: int| 0 <= k < ii.len() && ii[k] == j as usize;
                assert(mb.map.index_spec(its[k]) == ii[k]);
                assert(both[ms.len() + k] == its[k]);
            } else if !res_m[j] {
                assert(mi.contains(j as usize));
                let k = choose|k: int| 0 <= k < mi.len() && mi[k] == j as usize;
                assert(mb.map.index_spec(ms[k]) == mi[k]);
                assert(both[k] == ms[k]);
            }
        }
        assert forall|k: int| 0 <= k < both.len() implies mb.map.in_bounds(
            (#[trigger] both[k]).x as int,
            both[k].y as int,
        ) by {
            if k < ms.len() {
                assert(mb.map.index_spec(ms[k]) == mi[k]);
            } else {
                assert(mb.map.index_spec(its[k - ms.len()]) == ii[k - ms.len()]);
            }
        }
        assert forall|k: int| 0 <= k < ms.len() implies mb.map.in_bounds(
            (#[trigger] ms[k]).x as int,
            ms[k].y as int,
        ) by {
            assert(mb.map.index_spec(ms[k]) == mi[k]);
        }
        if ms.len() < architect.num_monsters {
            lemma_all_drawn(mb.map, d, res_m, t, architect.num_monsters as int, mi);
            lemma_free_candidates_drawn(mb, mi, ms, res_m, t, none);
        }
        if its.len() < architect.num_items {
            lemma_all_drawn(mb.map, d, res_i, t, architect.num_items as int, ii);
            lemma_free_candidates_drawn(mb, ii, its, res_i, t, ms);
        }
        if mb.npc_spawns@.len() < architect.num_npcs {
            lemma_all_drawn(mb.map, d, res_n, t, architect.num_npcs as int, ni);
            lemma_free_candidates_drawn(mb, ni, mb.npc_spawns@, res_n, t, both);
            assert forall|p: Position| !ms.contains(p) && !its.contains(p) implies !both.contains(p) by {
                if both.contains(p) {
                    let k = choose|k: int| 0 <= k < both.len() && both[k] == p;
                    if k < ms.len() {
                        assert(ms[k] == p);
                    } else {
                        assert(its[k - ms.len()] == p);
                    }
                }
            }
        }
    }

/// The three spawn lists, drawn one after the other with the earlier draws
/// reserved, are valid and pairwise apart.
proof fn lemma_level_spawns(
    mb: MapBuilder,
    t: int,
    mi: Seq<usize>,
    ii: Seq<usize>,
    ni: Seq<usize>,
    res_m: Seq<bool>,
    res_i: Seq<bool>,
    res_n: Seq<bool>,
)
    requires
        mb.map.wf(),
        mb.reserved@.len() == mb.map.size(),
        mb.map.in_bounds(mb.player_start.x as int, mb.player_start.y as int),
        mb.map.in_bounds(mb.winitem_start.x as int, mb.winitem_start.y as int),
        res_m.len() == mb.map.size(),
        res_i.len() == mb.map.size(),
        res_n.len() == mb.map.size(),
        res_m[mb.start_index()],
        res_m[mb.map.index_spec(mb.winitem_start)],
        forall|j: int| 0 <= j < res_m.len() && #[trigger] mb.reserved@[j] ==> res_m[j],
        forall|j: int| 0 <= j < res_m.len() && #[trigger] res_m[j] ==> res_i[j],
        forall|j: int| 0 <= j < res_i.len() && #[trigger] res_i[j] ==> res_n[j],
        forall|k: int| 0 <= k < mi.len() ==> res_i[#[trigger] mi[k] as int],
        forall|k: int| 0 <= k < ii.len() ==> res_n[#[trigger] ii[k] as int],
        mi.no_duplicates(),
        ii.no_duplicates(),
        ni.no_duplicates(),
        forall|k: int|
            0 <= k < mi.len() ==> is_candidate(mb.map, mb.dist_spec(), res_m, t, #[trigger] mi[k] as int),
        forall|k: int|
            0 <= k < ii.len() ==> is_candidate(mb.map, mb.dist_spec(), res_i, t, #[trigger] ii[k] as int),
        forall|k: int|
            0 <= k < ni.len() ==> is_candidate(mb.map, mb.dist_spec(), res_n, t, #[trigger] ni[k] as int),
        mb.monster_spawns@.len() == mi.len(),
        mb.item_spawns@.len() == ii.len(),
        mb.npc_spawns@.len() == ni.len(),
        forall|k: int|
            0 <= k < mi.len() ==> #[trigger] mb.map.index_spec(mb.monster_spawns@[k]) == mi[k]
                && mb.map.in_bounds(mb.monster_spawns@[k].x as int, mb.monster_spawns@[k].y as int),
        forall|k: int|
            0 <= k < ii.len() ==> #[trigger] mb.map.index_spec(mb.item_spawns@[k]) == ii[k]
                && mb.map.in_bounds(mb.item_spawns@[k].x as int, mb.item_spawns@[k].y as int),
        forall|k: int|
            0 <= k < ni.len() ==> #[trigger] mb.map.index_spec(mb.npc_spawns@[k]) == ni[k]
                && mb.map.in_bounds(mb.npc_spawns@[k].x as int, mb.npc_spawns@[k].y as int),
    ensures
        mb.spawns_ok(mb.monster_spawns@, t),
        mb.spawns_ok(mb.item_spawns@, t),
        mb.spawns_ok(mb.npc_spawns@, t),
        mb.monster_spawns@.disjoint(mb.item_spawns@),
        mb.monster_spawns@.disjoint(mb.npc_spawns@),
        mb.item_spawns@.disjoint(mb.npc_spawns@),
{
    let si = mb.start_index();
    let ei = mb.map.index_spec(mb.winitem_start);
    crate::position::lemma_index_in_range(mb.map.width as int, mb.map.height as int, mb.player_start.x as int, mb.player_start.y as int);
    crate::position::lemma_index_in_range(mb.map.width as int, mb.map.height as int, mb.winitem_start.x as int, mb.winitem_start.y as int);
    assert(res_i[si] && res_i[ei]);
    assert(res_n[si] && res_n[ei]);
    assert forall|j: int| 0 <= j < res_i.len() && #[trigger] mb.reserved@[j] implies res_i[j] by {
        assert(res_m[j]);
    }
    assert forall|j: int| 0 <= j < res_n.len() && #[trigger] mb.reserved@[j] implies res_n[j] by {
        assert(res_i[j]);
    }
    lemma_spawn_positions(mb, mi, mb.monster_spawns@, res_m, t);
    lemma_spawn_positions(mb, ii, mb.item_spawns@, res_i, t);
    lemma_spawn_positions(mb, ni, mb.npc_spawns@, res_n, t);
    assert forall|k: int| 0 <= k < mi.len() implies res_n[#[trigger] mi[k] as int] by {
        assert(res_i[mi[k] as int]);
    }
    assert forall|k: int| 0 <= k < ii.len() implies !res_i[#[trigger] ii[k] as int] by {
        assert(is_candidate(mb.map, mb.dist_spec(), res_i, t, ii[k] as int));
    }
    assert forall|k: int| 0 <= k < ni.len() implies !res_n[#[trigger] ni[k] as int] by {
        assert(is_candidate(mb.map, mb.dist_spec(), res_n, t, ni[k] as int));
    }
    lemma_disjoint_positions(mb.map, mi, mb.monster_spawns@, ii, mb.item_spawns@, res_i);
    lemma_disjoint_positions(mb.map, mi, mb.monster_spawns@, ni, mb.npc_spawns@, res_n);
    lemma_disjoint_positions(mb.map, ii, mb.item_spawns@, ni, mb.npc_spawns@, res_n);
}

impl MapBuilder {
    /// Generates a level: the strategy lays out the map, the prefab is
    /// stamped where it fits, tiles that the start cannot reach are sealed,
    /// the exit goes to the tile furthest from the start, and monsters,
    /// items and npcs, in that order, get distinct spawn tiles further than
    /// `entity_distance` steps from the start. A map with no width or no
    /// height is refused.
    #[verifier::rlimit(100)]
    #[verifier::spinoff_prover]
    pub fn new(mut rng: RngComponent, height: usize, width: usize, architect: &ArchitectSettings) -> (r:
        Result<MapBuilder, GridError>)
        requires
            dimensions_fit(width as int, height as int),
        ensures
            r is Ok <==> (width > 0 && height > 0),
            r is Err ==> r == Err::<MapBuilder, GridError>(GridError::NonPositiveDimension),
            r matches Ok(mb) ==> {
                &&& mb.wf(architect.entity_distance as int)
                &&& mb.map.width == width
                &&& mb.map.height == height
                &&& mb.monster_spawns@.len() <= architect.num_monsters
                &&& mb.item_spawns@.len() <= architect.num_items
                &&& mb.npc_spawns@.len() <= architect.num_npcs
                &&& mb.reserved@.len() == mb.map.size()
                &&& exists|g0: Grid, g1: Grid| #[trigger] built_from(architect.architect, width as int, height as int, mb, g0, g1)
                &&& architect.architect == Architect::Empty ==> mb.player_start == center_of(width as int, height as int)
                &&& mb.monster_spawns@.len() < architect.num_monsters ==> forall|p: Position|
                    mb.free_candidate(p, architect.entity_distance as int)
                        ==> mb.monster_spawns@.contains(p)
                &&& mb.item_spawns@.len() < architect.num_items ==> forall|p: Position|
                    mb.free_candidate(p, architect.entity_distance as int)
                        && !mb.monster_spawns@.contains(p) ==> mb.item_spawns@.contains(p)
                &&& mb.npc_spawns@.len() < architect.num_npcs ==> forall|p: Position|
                    mb.free_candidate(p, architect.entity_distance as int)
                        && !mb.monster_spawns@.contains(p) && !mb.item_spawns@.contains(p)
                        ==> mb.npc_spawns@.contains(p)
            },
    {
        if width == 0 || height == 0 {
            return Err(GridError::NonPositiveDimension);
        }
        let layout = build_layout(architect, height, width, &mut rng);
        let ghost g_layout = layout.grid;
        let start = layout.start;
        let mut map = layout.grid;
        let rooms = layout.rooms;
        let n = map.len();
        let mut reserved: Vec<bool> = Vec::new();
        let mut c: usize = 0;
        while c < n
            invariant
                c <= n,
                reserved@.len() == c,
                forall|j: int| 0 <= j < c ==> !reserved@[j],
            decreases n - c,
        {
            reserved.push(false);
            c = c + 1;
        }
        let ghost mask_before = reserved@;
        let placed = apply_prefab(
            &mut map,
            &mut reserved,
            start,
            &mut rng,
            MAX_ATTEMPTS,
            PREFAB_MIN_DISTANCE,
            PREFAB_MAX_DISTANCE,
        );
        let ghost g_prefab = map;
        let ghost mask0 = reserved@;
        let mut mb = MapBuilder {
            map,
            rooms,
            monster_spawns: Vec::new(),
            item_spawns: Vec::new(),
            npc_spawns: Vec::new(),
            player_start: start,
            winitem_start: start,
            reserved: Vec::new(),
        };
        mb.fill_in_unreachable();
        let m = DistanceMap::new(&mb.map, start);
        let ghost d = m.dist@;
        let si = match mb.map.index_at(start.x, start.y) {
            Some(i) => i,
            None => {
                proof {
                    assert(false);
                }
                0
            },
        };
        proof {
            assert(mb.map.is_floor(si as int));
            assert(finite(d[si as int]));
        }
        let exit = match m.furthest_point() {
            Some(p) => p,
            None => {
                proof {
                    assert(false);
                }
                start
            },
        };
        let ghost e = furthest_index(d)->Some_0;
        proof {
            assert(is_furthest(d, e));
            lemma_position_of_index(width as int, height as int, e);
            assert(mb.map.is_floor(e));
        }
        let ei = match mb.map.index_at(exit.x, exit.y) {
            Some(i) => i,
            None => {
                proof {
                    assert(false);
                }
                0
            },
        };
        mb.winitem_start = exit;
        mb.reserved = copy_mask(&reserved);
        let ghost mask = reserved@;
        reserved.set(si, true);
        reserved.set(ei, true);
        let ed = architect.entity_distance;
        let mi = entity_spawns(&mb.map, &m, &reserved, ed, architect.num_monsters, &mut rng);
        let ghost res_m = reserved@;
        reserve_all(&mut reserved, &mi);
        let ii = entity_spawns(&mb.map, &m, &reserved, ed, architect.num_items, &mut rng);
        let ghost res_i = reserved@;
        reserve_all(&mut reserved, &ii);
        let ni = entity_spawns(&mb.map, &m, &reserved, ed, architect.num_npcs, &mut rng);
        let ghost res_n = reserved@;
        let mpos = positions_of(&mb.map, &mi);
        let ipos = positions_of(&mb.map, &ii);
        let npos = positions_of(&mb.map, &ni);
        let ghost map_before = mb.map;
        mb.monster_spawns = mpos;
        mb.item_spawns = ipos;
        mb.npc_spawns = npos;
        assert(mb.map == map_before);
        proof {
            let t = ed as int;
            assert(mb.dist_spec() == d);
            assert forall|j: int| 0 <= j < res_m.len() && #[trigger] mb.reserved@[j] implies res_m[j] by {
                assert(mask[j]);
            }
            assert(res_m[si as int] && res_m[ei as int]);
            lemma_level_spawns(mb, t, mi@, ii@, ni@, res_m, res_i, res_n);
            assert forall|i: int| 0 <= i < g_layout.size() && !mb.reserved@[i] implies g_prefab.tiles@[i]
                == g_layout.tiles@[i] by {
                assert(mask0[i] == mb.reserved@[i]);
            }
            assert(mask_before =~= no_reservation(g_layout.size()));
            if placed {
                let (x, y) = choose|x: int, y: int|
                    #[trigger] placed_at(
                        g_layout,
                        g_prefab.tiles@,
                        mask_before,
                        mask0,
                        start,
                        PREFAB_MIN_DISTANCE as int,
                        PREFAB_MAX_DISTANCE as int,
                        x,
                        y,
                    );
                assert(placed_at(
                    g_layout,
                    g_prefab.tiles@,
                    no_reservation(g_layout.size()),
                    mb.reserved@,
                    mb.player_start,
                    PREFAB_MIN_DISTANCE as int,
                    PREFAB_MAX_DISTANCE as int,
                    x,
                    y,
                ));
            }
            assert(prefab_outcome(g_layout, g_prefab, mb.reserved@, mb.player_start));
            assert(built_from(architect.architect, width as int, height as int, mb, g_layout, g_prefab));
            assert forall|j: int| 0 <= j < res_m.len() && #[trigger] res_m[j] implies mb.reserved@[j] || j
                == mb.start_index() || j == mb.map.index_spec(mb.winitem_start) by {
                if j != si as int && j != ei as int {
                    assert(mask[j]);
                }
            }
            lemma_counts_exhausted(mb, architect, d, mi@, ii@, ni@, res_m, res_i, res_n);
        }
        Ok(mb)
    }
}

/// Whether `v` holds `p`.
fn contains_position(v: &Vec<Position>, p: Position) -> (r: bool)
    ensures
        r == v@.contains(p),
{
    let mut k: usize = 0;
    while k < v.len()
        invariant
            k <= v@.len(),
            forall|j: int| 0 <= j < k ==> v@[j] != p,
        decreases v@.len() - k,
    {
        if v[k] == p {
            proof {
                assert(v@[k as int] == p);
            }
            return true;
        }
        k = k + 1;
    }
    false
}

impl MapBuilder {
    /// The character drawn for `p`: `@` the player start, `?` the exit, `M`
    /// a monster, `N` an npc, `I` an item, else `.` for Floor and `#` for Wall.
    pub open spec fn glyph(&self, p: Position) -> Seq<char> {
        if p == self.player_start {
            "@"@
        } else if p == self.winitem_start {
            "?"@
        } else if self.monster_spawns@.contains(p) {
            "M"@
        } else if self.npc_spawns@.contains(p) {
            "N"@
        } else if self.item_spawns@.contains(p) {
            "I"@
        } else if self.map.enterable(p) {
            "."@
        } else {
            "#"@
        }
    }

    /// The first `upto` glyphs of row `y`.
    pub open spec fn row_text(&self, y: int, upto: int) -> Seq<char>
        decreases upto,
    {
        if upto <= 0 {
            Seq::empty()
        } else {
            self.row_text(y, upto - 1) + self.glyph(Position { x: (upto - 1) as i32, y: y as i32 })
        }
    }

    /// The first `rows` rows, separated by line breaks.
    pub open spec fn map_text(&self, rows: int) -> Seq<char>
        decreases rows,
    {
        if rows <= 0 {
            Seq::empty()
        } else if rows == 1 {
            self.row_text(0, self.map.width as int)
        } else {
            self.map_text(rows - 1) + "\n"@ + self.row_text(rows - 1, self.map.width as int)
        }
    }

    fn glyph_at(&self, p: Position) -> (r: &'static str)
        requires
            self.map.wf(),
        ensures
            r@ == self.glyph(p),
    {
        if p == self.player_start {
            "@"
        } else if p == self.winitem_start {
            "?"
        } else if contains_position(&self.monster_spawns, p) {
            "M"
        } else if contains_position(&self.npc_spawns, p) {
            "N"
        } else if contains_position(&self.item_spawns, p) {
            "I"
        } else if self.map.can_enter(p) {
            "."
        } else {
            "#"
        }
    }

    /// The level as text, one line per row of the map.
    pub fn render(&self) -> (r: String)
        requires
            self.map.wf(),
        ensures
            r@ == self.map_text(self.map.height as int),
    {
        let w = self.map.width;
        let h = self.map.height;
        let mut out = <String as StringExecFns>::from_str("");
        proof {
            reveal_strlit("");
            assert(out@ =~= self.map_text(0));
        }
        let mut y: usize = 0;
        while y < h
            invariant
                self.map.wf(),
                w == self.map.width,
                h == self.map.height,
                y <= h,
                out@ == self.map_text(y as int),
            decreases h - y,
        {
            if y > 0 {
                out.append("\n");
            }
            let ghost before = out@;
            let mut x: usize = 0;
            while x < w
                invariant
                    self.map.wf(),
                    w == self.map.width,
                    h == self.map.height,
                    y < h,
                    x <= w,
                    out@ == before + self.row_text(y as int, x as int),
                decreases w - x,
            {
                let g = self.glyph_at(Position { x: x as i32, y: y as i32 });
                out.append(g);
                proof {
                    assert(out@ =~= before + self.row_text(y as int, x + 1));
                }
                x = x + 1;
            }
            proof {
                if y == 0 {
                    assert(out@ =~= self.map_text(1));
                } else {
                    assert(out@ =~= self.map_text(y + 1));
                }
            }
            y = y + 1;
        }
        out
    }
}

/// The Floor of every generated level is one region: any two Floor tiles
/// are joined by a path over Floor tiles.
pub proof fn lemma_level_floor_linked(mb: MapBuilder, threshold: int, p: int, q: int)
    requires
        mb.wf(threshold),
        mb.map.is_floor(p),
        mb.map.is_floor(q),
    ensures
        exists|path: Seq<int>| #[trigger] is_path(mb.map, path) && path[0] == p && path[path.len() - 1] == q,
{
    lemma_floor_pairwise_linked(mb.map, mb.start_index(), mb.dist_spec(), p, q);
}

} // verus!

use vstd::prelude::*;
use bevy_turborand::RngComponent;
use crate::distance::{DistanceMap, UNREACHABLE, finite};
use crate::grid::{Grid, TileKind};
use crate::rng::sample_indices;
use vstd::set_lib::lemma_subset_equality;

verus! {

/// Tile `i` may receive a spawn: Floor, reached in more than `threshold`
/// steps, and not reserved.
pub open spec fn is_candidate(g: Grid, d: Seq<usize>, reserved: Seq<bool>, threshold: int, i: int) -> bool {
    &&& g.is_floor(i)
    &&& finite(d[i])
    &&& d[i] > threshold
    &&& !reserved[i]
}

/// The candidates below index `upto`, in row-major order.
pub open spec fn candidates_upto(
    g: Grid,
    d: Seq<usize>,
    reserved: Seq<bool>,
    threshold: int,
    upto: int,
) -> Seq<usize>
    decreases upto,
{
    if upto <= 0 {
        Seq::empty()
    } else if is_candidate(g, d, reserved, threshold, upto - 1) {
        candidates_upto(g, d, reserved, threshold, upto - 1).push((upto - 1) as usize)
    } else {
        candidates_upto(g, d, reserved, threshold, upto - 1)
    }
}

/// The candidate list holds each candidate once, in increasing order.
pub proof fn lemma_candidates(g: Grid, d: Seq<usize>, reserved: Seq<bool>, threshold: int, upto: int)
    requires
        0 <= upto <= usize::MAX,
    ensures
        ({
            let c = candidates_upto(g, d, reserved, threshold, upto);
            &&& forall|k: int|
                0 <= k < c.len() ==> c[k] < upto && is_candidate(
                    g,
                    d,
                    reserved,
                    threshold,
                    #[trigger] c[k] as int,
                )
            &&& forall|k1: int, k2: int| 0 <= k1 < k2 < c.len() ==> #[trigger] c[k1] < #[trigger] c[k2]
            &&& forall|i: int|
                0 <= i < upto && is_candidate(g, d, reserved, threshold, i) ==> #[trigger] c.contains(
                    i as usize,
                )
            &&& c.no_duplicates()
        }),
    decreases upto,
{
    let c = candidates_upto(g, d, reserved, threshold, upto);
    if upto > 0 {
        lemma_candidates(g, d, reserved, threshold, upto - 1);
        let p = candidates_upto(g, d, reserved, threshold, upto - 1);
        assert forall|k: int| 0 <= k < p.len() implies c[k] == p[k] by {}
        assert forall|k1: int, k2: int| 0 <= k1 < k2 < c.len() implies #[trigger] c[k1] < #[trigger] c[k2] by {
            assert(c[k1] == p[k1]);
            if k2 < p.len() {
                assert(c[k2] == p[k2]);
            }
        }
        if is_candidate(g, d, reserved, threshold, upto - 1) {
            assert(c[c.len() - 1] == (upto - 1) as usize);
            assert forall|i: int|
                0 <= i < upto && is_candidate(g, d, reserved, threshold, i) implies #[trigger] c.contains(
                i as usize,
            ) by {
                if i < upto - 1 {
                    assert(p.contains(i as usize));
                    let k = choose|k: int| 0 <= k < p.len() && p[k] == i as usize;
                    assert(c[k] == i as usize);
                }
            }
        }
    }
    assert forall|k1: int, k2: int| 0 <= k1 < c.len() && 0 <= k2 < c.len() && k1 != k2 implies c[k1]
        != c[k2] by {
        if k1 < k2 {
            assert(c[k1] < c[k2]);
        } else {
            assert(c[k2] < c[k1]);
        }
    }
}

/// The spawn candidates of the map in row-major order.
pub fn candidate_pool(g: &Grid, m: &DistanceMap, reserved: &Vec<bool>, threshold: usize) -> (r: Vec<
    usize,
>)
    requires
        g.wf(),
        m.dist@.len() == g.size(),
        reserved@.len() == g.size(),
    ensures
        r@ == candidates_upto(*g, m.dist@, reserved@, threshold as int, g.size()),
{
    let n = g.len();
    let mut r: Vec<usize> = Vec::new();
    let mut i: usize = 0;
    while i < n
        invariant
            n == g.size(),
            m.dist@.len() == n,
            reserved@.len() == n,
            i <= n,
            r@ == candidates_upto(*g, m.dist@, reserved@, threshold as int, i as int),
        decreases n - i,
    {
        let v = m.dist[i];
        if g.tiles[i] == TileKind::Floor && v != UNREACHABLE && v > threshold && !reserved[i] {
            r.push(i);
        }
        i = i + 1;
    }
    r
}

/// Draws up to `amount` distinct spawn tiles among the candidates; when
/// there are no more than `amount` candidates, all of them.
pub fn entity_spawns(
    g: &Grid,
    m: &DistanceMap,
    reserved: &Vec<bool>,
    threshold: usize,
    amount: usize,
    rng: &mut RngComponent,
) -> (r: Vec<usize>)
    requires
        g.wf(),
        m.dist@.len() == g.size(),
        reserved@.len() == g.size(),
    ensures
        ({
            let pool = candidates_upto(*g, m.dist@, reserved@, threshold as int, g.size());
            &&& r@.len() == (if amount < pool.len() {
                amount as int
            } else {
                pool.len() as int
            })
            &&& r@.no_duplicates()
            &&& forall|k: int|
                0 <= k < r@.len() ==> is_candidate(
                    *g,
                    m.dist@,
                    reserved@,
                    threshold as int,
                    #[trigger] r@[k] as int,
                ) && r@[k] < g.size()
            &&& amount >= pool.len() ==> r@.to_set() == pool.to_set()
        }),
{
    let pool = candidate_pool(g, m, reserved, threshold);
    let r = sample_indices(rng, &pool, amount);
    proof {
        lemma_candidates(*g, m.dist@, reserved@, threshold as int, g.size());
        assert forall|k: int| 0 <= k < r@.len() implies is_candidate(
            *g,
            m.dist@,
            reserved@,
            threshold as int,
            #[trigger] r@[k] as int,
        ) && r@[k] < g.size() by {
            assert(pool@.contains(r@[k]));
            let j = choose|j: int| 0 <= j < pool@.len() && pool@[j] == r@[k];
            assert(is_candidate(*g, m.dist@, reserved@, threshold as int, pool@[j] as int));
        }
        if amount >= pool@.len() {
            lemma_sample_is_pool(pool@, r@);
        }
    }
    r
}

/// A duplicate-free selection from a duplicate-free pool, as long as the
/// pool, is the whole pool.
pub proof fn lemma_sample_is_pool(pool: Seq<usize>, r: Seq<usize>)
    requires
        pool.no_duplicates(),
        r.no_duplicates(),
        r.len() == pool.len(),
        forall|k: int| 0 <= k < r.len() ==> pool.contains(#[trigger] r[k]),
    ensures
        r.to_set() == pool.to_set(),
{
    broadcast use vstd::seq_lib::seq_to_set_is_finite;

    pool.unique_seq_to_set();
    r.unique_seq_to_set();
    assert forall|x: usize| r.to_set().contains(x) implies pool.to_set().contains(x) by {
        let k = choose|k: int| 0 <= k < r.len() && r[k] == x;
        assert(pool.contains(r[k]));
    }
    lemma_subset_equality(r.to_set(), pool.to_set());
}

} // verus!

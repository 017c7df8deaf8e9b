use vstd::prelude::*;
use vstd::string::StringExecFns;
use bevy_turborand::RngComponent;
use crate::rng::{draw_below, draw_below_u64};

verus! {

/// The monster species.
#[derive(Clone, Copy, PartialEq, Eq, Structural, Debug)]
pub enum MonsterKind {
    YogaBunny,
    GymBro,
    Nutritionist,
    SupplementPusher,
}

/// What a monster is spawned with.
pub struct MonsterConfig {
    pub kind: MonsterKind,
    pub name: String,
    pub health: i32,
    pub sprite_index: usize,
}

/// The species for a roll in `0..100`: 61 in 100 Yoga Bunnies, 20 Gym Bros,
/// 15 Nutritionists and 4 Supplement Pushers.
pub open spec fn kind_for_roll(roll: int) -> MonsterKind {
    if roll <= 60 {
        MonsterKind::YogaBunny
    } else if roll <= 80 {
        MonsterKind::GymBro
    } else if roll <= 95 {
        MonsterKind::Nutritionist
    } else {
        MonsterKind::SupplementPusher
    }
}

pub open spec fn health_of(kind: MonsterKind) -> i32 {
    match kind {
        MonsterKind::YogaBunny => 1,
        MonsterKind::GymBro => 4,
        MonsterKind::Nutritionist => 2,
        MonsterKind::SupplementPusher => 3,
    }
}

pub open spec fn sprite_of(kind: MonsterKind) -> usize {
    match kind {
        MonsterKind::YogaBunny => 69,
        MonsterKind::GymBro => 79,
        MonsterKind::Nutritionist => 111,
        MonsterKind::SupplementPusher => 103,
    }
}

pub open spec fn name_of(kind: MonsterKind) -> Seq<char> {
    match kind {
        MonsterKind::YogaBunny => "Yoga Bunny"@,
        MonsterKind::GymBro => "Gym Bro"@,
        MonsterKind::Nutritionist => "Nutritionist"@,
        MonsterKind::SupplementPusher => "Supplement Pusher"@,
    }
}

impl MonsterConfig {
    pub open spec fn describes(&self, kind: MonsterKind) -> bool {
        &&& self.kind == kind
        &&& self.name@ == name_of(kind)
        &&& self.health == health_of(kind)
        &&& self.sprite_index == sprite_of(kind)
    }
}

pub fn nutritionist() -> (r: MonsterConfig)
    ensures
        r.describes(MonsterKind::Nutritionist),
{
    MonsterConfig {
        kind: MonsterKind::Nutritionist,
        name: <String as StringExecFns>::from_str("Nutritionist"),
        health: 2,
        sprite_index: 111,
    }
}

pub fn yoga_bunny() -> (r: MonsterConfig)
    ensures
        r.describes(MonsterKind::YogaBunny),
{
    MonsterConfig {
        kind: MonsterKind::YogaBunny,
        name: <String as StringExecFns>::from_str("Yoga Bunny"),
        health: 1,
        sprite_index: 69,
    }
}

pub fn gym_bro() -> (r: MonsterConfig)
    ensures
        r.describes(MonsterKind::GymBro),
{
    MonsterConfig {
        kind: MonsterKind::GymBro,
        name: <String as StringExecFns>::from_str("Gym Bro"),
        health: 4,
        sprite_index: 79,
    }
}

pub fn supplement_pusher() -> (r: MonsterConfig)
    ensures
        r.describes(MonsterKind::SupplementPusher),
{
    MonsterConfig {
        kind: MonsterKind::SupplementPusher,
        name: <String as StringExecFns>::from_str("Supplement Pusher"),
        health: 3,
        sprite_index: 103,
    }
}

/// The configuration of the species that `roll` selects.
pub fn monster_for_roll(roll: usize) -> (r: MonsterConfig)
    ensures
        r.describes(kind_for_roll(roll as int)),
{
    if roll <= 60 {
        yoga_bunny()
    } else if roll <= 80 {
        gym_bro()
    } else if roll <= 95 {
        nutritionist()
    } else {
        supplement_pusher()
    }
}

/// Draws a species with the proportions of `kind_for_roll`.
pub fn random_monster(rng: &mut RngComponent) -> (r: MonsterConfig)
    ensures
        exists|roll: int| 0 <= roll < 100 && r.describes(kind_for_roll(roll)),
{
    let roll = draw_below(rng, 100);
    monster_for_roll(roll)
}

/// The sum of the first `k` weights.
pub open spec fn weight_prefix(w: Seq<u32>, k: int) -> int
    decreases k,
{
    if k <= 0 {
        0
    } else {
        weight_prefix(w, k - 1) + w[k - 1]
    }
}

proof fn lemma_weight_prefix_bounds(w: Seq<u32>, k: int)
    requires
        0 <= k <= w.len(),
    ensures
        0 <= weight_prefix(w, k) <= k * u32::MAX,
    decreases k,
{
    if k > 0 {
        lemma_weight_prefix_bounds(w, k - 1);
    }
}

/// The index whose share of `0..total` holds `roll`, each index `k` owning
/// `weights[k]` values in order; `None` when `roll` is not below the total.
/// Weights are integers, so the choice comes from one integer draw.
pub fn pick_weighted(weights: &Vec<u32>, roll: u64) -> (r: Option<usize>)
    requires
        weights@.len() <= u32::MAX,
    ensures
        match r {
            Some(k) => k < weights@.len() && weight_prefix(weights@, k as int) <= roll
                < weight_prefix(weights@, k + 1),
            None => roll >= weight_prefix(weights@, weights@.len() as int),
        },
{
    let mut acc: u64 = 0;
    let mut k: usize = 0;
    while k < weights.len()
        invariant
            weights@.len() <= u32::MAX,
            k <= weights@.len(),
            acc == weight_prefix(weights@, k as int),
            roll >= acc,
        decreases weights@.len() - k,
    {
        proof {
            lemma_weight_prefix_bounds(weights@, k + 1);
            assert((k + 1) * u32::MAX <= u32::MAX * u32::MAX) by (nonlinear_arith)
                requires
                    k + 1 <= u32::MAX,
            ;
        }
        let next = acc + weights[k] as u64;
        if roll < next {
            return Some(k);
        }
        acc = next;
        k = k + 1;
    }
    None
}

/// Draws an index with probability proportional to its weight; a single
/// index is taken whatever its weight, and `None` comes when there is no
/// index or several whose weights are all zero.
pub fn draw_weighted(weights: &Vec<u32>, rng: &mut RngComponent) -> (r: Option<usize>)
    requires
        weights@.len() <= u32::MAX,
    ensures
        r is None <==> weights@.len() != 1 && weight_prefix(weights@, weights@.len() as int) == 0,
        weights@.len() == 1 ==> r == Some(0usize),
        r matches Some(k) ==> k < weights@.len() && (weights@[k as int] > 0 || weights@.len() == 1),
{
    if weights.len() == 1 {
        return Some(0);
    }
    let mut total: u64 = 0;
    let mut k: usize = 0;
    while k < weights.len()
        invariant
            weights@.len() <= u32::MAX,
            k <= weights@.len(),
            total == weight_prefix(weights@, k as int),
        decreases weights@.len() - k,
    {
        proof {
            lemma_weight_prefix_bounds(weights@, k + 1);
            assert((k + 1) * u32::MAX <= u32::MAX * u32::MAX) by (nonlinear_arith)
                requires
                    k + 1 <= u32::MAX,
            ;
        }
        total = total + weights[k] as u64;
        k = k + 1;
    }
    if total == 0 {
        return None;
    }
    let roll = draw_below_u64(rng, total);
    let r = pick_weighted(weights, roll);
    proof {
        if let Some(k) = r {
            assert(weight_prefix(weights@, k + 1) == weight_prefix(weights@, k as int) + weights@[k as int]);
        }
    }
    r
}

/// Whether `level` is in `levels`.
fn holds_level(levels: &Vec<u32>, level: u32) -> (r: bool)
    ensures
        r == levels@.contains(level),
{
    let mut k: usize = 0;
    while k < levels.len()
        invariant
            k <= levels@.len(),
            forall|j: int| 0 <= j < k ==> levels@[j] != level,
        decreases levels@.len() - k,
    {
        if levels[k] == level {
            proof {
                assert(levels@[k as int] == level);
            }
            return true;
        }
        k = k + 1;
    }
    false
}

/// The kinds, in order, whose list of levels holds `level`.
pub fn kinds_on_level(levels: &Vec<Vec<u32>>, level: u32) -> (r: Vec<usize>)
    ensures
        forall|k: int| 0 <= k < r@.len() ==> #[trigger] r@[k] < levels@.len() && levels@[r@[k] as int]@.contains(level),
        forall|k1: int, k2: int| 0 <= k1 < k2 < r@.len() ==> #[trigger] r@[k1] < #[trigger] r@[k2],
        forall|j: int| 0 <= j < levels@.len() && (#[trigger] levels@[j])@.contains(level) ==> r@.contains(j as usize),
        r@.len() <= levels@.len(),
{
    let mut r: Vec<usize> = Vec::new();
    let mut j: usize = 0;
    while j < levels.len()
        invariant
            j <= levels@.len(),
            r@.len() <= j,
            forall|k: int| 0 <= k < r@.len() ==> #[trigger] r@[k] < j && levels@[r@[k] as int]@.contains(level),
            forall|k1: int, k2: int| 0 <= k1 < k2 < r@.len() ==> #[trigger] r@[k1] < #[trigger] r@[k2],
            forall|i: int| 0 <= i < j && (#[trigger] levels@[i])@.contains(level) ==> r@.contains(i as usize),
        decreases levels@.len() - j,
    {
        if holds_level(&levels[j], level) {
            let ghost before = r@;
            r.push(j);
            proof {
                assert(r@[r@.len() - 1] == j);
                assert forall|i: int| 0 <= i < j + 1 && (#[trigger] levels@[i])@.contains(level) implies r@.contains(
                    i as usize,
                ) by {
                    if i < j {
                        let k = choose|k: int| 0 <= k < before.len() && before[k] == i as usize;
                        assert(r@[k] == i as usize);
                    }
                }
            }
        }
        j = j + 1;
    }
    r
}

/// Draws an npc kind among those that appear on `level`, in proportion to
/// their weights; `None` when no kind appears there, or when several do and
/// all their weights are zero.
pub fn draw_npc_kind(levels: &Vec<Vec<u32>>, weights: &Vec<u32>, level: u32, rng: &mut RngComponent) -> (r: Option<usize>)
    requires
        levels@.len() == weights@.len(),
        weights@.len() <= u32::MAX,
    ensures
        r matches Some(k) ==> k < levels@.len() && levels@[k as int]@.contains(level),
        (forall|j: int| 0 <= j < levels@.len() ==> !(#[trigger] levels@[j])@.contains(level)) ==> r is None,
{
    let kinds = kinds_on_level(levels, level);
    let mut w: Vec<u32> = Vec::new();
    let mut k: usize = 0;
    while k < kinds.len()
        invariant
            k <= kinds@.len(),
            w@.len() == k,
            kinds@.len() <= levels@.len(),
            levels@.len() == weights@.len(),
            forall|q: int| 0 <= q < kinds@.len() ==> #[trigger] kinds@[q] < levels@.len(),
        decreases kinds@.len() - k,
    {
        assert(kinds@[k as int] < levels@.len());
        w.push(weights[kinds[k]]);
        k = k + 1;
    }
    match draw_weighted(&w, rng) {
        Some(i) => {
            proof {
                assert(kinds@[i as int] < levels@.len());
            }
            Some(kinds[i])
        },
        None => None,
    }
}

} // verus!

use bevy_turborand::RngComponent;
use cake_addict::distance::DistanceMap;
use cake_addict::grid::{Grid, TileKind};
use cake_addict::position::Position;
use cake_addict::prefab::apply_prefab;
use cake_addict::spawn::{candidate_pool, entity_spawns};

#[test]
fn pool_is_far_unreserved_floor_in_row_major_order() {
    let mut g = Grid::new(4, 2, TileKind::Floor).unwrap();
    g.set(Position::new(3, 0), TileKind::Wall);
    let m = DistanceMap::new(&g, Position::new(0, 0));
    let mut reserved = vec![false; 8];
    reserved[6] = true;
    assert_eq!(candidate_pool(&g, &m, &reserved, 1), vec![2, 5, 7]);
    assert_eq!(candidate_pool(&g, &m, &reserved, 0), vec![1, 2, 4, 5, 7]);
}

#[test]
fn asking_for_more_than_the_pool_gives_the_pool() {
    let g = Grid::new(4, 2, TileKind::Floor).unwrap();
    let m = DistanceMap::new(&g, Position::new(0, 0));
    let reserved = vec![false; 8];
    let mut rng = RngComponent::with_seed(4);
    let mut r = entity_spawns(&g, &m, &reserved, 2, 10, &mut rng);
    r.sort();
    assert_eq!(r, vec![3, 6, 7]);
}

#[test]
fn asking_for_fewer_gives_distinct_candidates() {
    let g = Grid::new(6, 6, TileKind::Floor).unwrap();
    let m = DistanceMap::new(&g, Position::new(0, 0));
    let reserved = vec![false; 36];
    let pool = candidate_pool(&g, &m, &reserved, 3);
    let mut rng = RngComponent::with_seed(8);
    let r = entity_spawns(&g, &m, &reserved, 3, 5, &mut rng);
    assert_eq!(r.len(), 5);
    for (k, i) in r.iter().enumerate() {
        assert!(pool.contains(i));
        assert!(!r[k + 1..].contains(i));
    }
}

#[test]
fn prefab_is_stamped_far_from_the_start_and_reserved() {
    let mut g = Grid::new(20, 20, TileKind::Floor).unwrap();
    let mut reserved = vec![false; 400];
    let mut rng = RngComponent::with_seed(2);
    let start = Position::new(0, 0);
    let placed = apply_prefab(&mut g, &mut reserved, start, &mut rng, 50, 10, 2000);
    assert!(placed);
    assert!(g.can_enter(start));
    assert_eq!(reserved.iter().filter(|r| **r).count(), 25);
    assert_eq!(g.tiles.iter().filter(|t| **t == TileKind::Wall).count(), 4);
}

#[test]
fn prefab_that_cannot_fit_changes_nothing() {
    let mut g = Grid::new(6, 6, TileKind::Floor).unwrap();
    let mut reserved = vec![false; 36];
    let before = g.tiles.clone();
    let mut rng = RngComponent::with_seed(2);
    let placed = apply_prefab(&mut g, &mut reserved, Position::new(0, 0), &mut rng, 10, 20, 2000);
    assert!(!placed);
    assert_eq!(g.tiles, before);
    assert!(reserved.iter().all(|r| !*r));
}

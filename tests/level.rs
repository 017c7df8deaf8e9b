use bevy_turborand::RngComponent;
use cake_addict::architect::{
    automata_from_noise, build_automata, build_drunkard, build_empty, build_standard, carve_walk,
    Architect, ArchitectSettings,
};
use cake_addict::distance::{DistanceMap, UNREACHABLE};
use cake_addict::grid::{Grid, GridError, TileKind};
use cake_addict::level::MapBuilder;
use cake_addict::position::Position;

fn settings(architect: Architect, monsters: usize, items: usize, npcs: usize, distance: usize) -> ArchitectSettings {
    ArchitectSettings {
        architect,
        num_monsters: monsters,
        num_items: items,
        num_npcs: npcs,
        entity_distance: distance,
    }
}

fn all_floor_reached(g: &Grid, start: Position) -> bool {
    let m = DistanceMap::new(g, start);
    (0..g.tiles.len()).all(|i| g.tiles[i] != TileKind::Floor || m.dist[i] != UNREACHABLE)
}

fn check_level(mb: &MapBuilder, s: &ArchitectSettings) {
    let g = &mb.map;
    assert!(g.can_enter(mb.player_start));
    assert!(g.can_enter(mb.winitem_start));
    let m = DistanceMap::new(g, mb.player_start);
    assert_eq!(m.distance(mb.player_start), 0);
    assert_ne!(m.distance(mb.winitem_start), UNREACHABLE);
    assert_eq!(m.furthest_point(), Some(mb.winitem_start));
    assert!(all_floor_reached(g, mb.player_start));
    assert!(mb.monster_spawns.len() <= s.num_monsters);
    assert!(mb.item_spawns.len() <= s.num_items);
    assert!(mb.npc_spawns.len() <= s.num_npcs);
    let mut all: Vec<Position> = vec![mb.player_start, mb.winitem_start];
    for p in mb.monster_spawns.iter().chain(mb.item_spawns.iter()).chain(mb.npc_spawns.iter()) {
        assert!(g.can_enter(*p));
        let d = m.distance(*p);
        assert!(d != UNREACHABLE && d > s.entity_distance);
        assert!(!all.contains(p));
        all.push(*p);
    }
}

#[test]
fn build() {
    let rng = RngComponent::new();
    let s = settings(Architect::Drunkard, 40, 10, 5, 10);
    let mb = MapBuilder::new(rng, 40, 80, &s).unwrap();
    check_level(&mb, &s);
    println!("{}", mb.render());
}

#[test]
fn gen_many() {
    (0..1000).for_each(|_| {
        let rng = RngComponent::new();
        let s = settings(Architect::Drunkard, 40, 10, 5, 10);
        let mb = MapBuilder::new(rng, 40, 80, &s).unwrap();
        assert_eq!(mb.map.width, 80);
        assert_eq!(mb.map.height, 40);
    });
}

#[test]
fn zero_dimension_is_refused() {
    let s = settings(Architect::Empty, 1, 1, 1, 0);
    assert!(matches!(
        MapBuilder::new(RngComponent::with_seed(1), 0, 10, &s),
        Err(GridError::NonPositiveDimension)
    ));
    assert!(matches!(
        MapBuilder::new(RngComponent::with_seed(1), 10, 0, &s),
        Err(GridError::NonPositiveDimension)
    ));
}

#[test]
fn every_architect_gives_a_valid_level() {
    for arch in [Architect::Empty, Architect::Standard, Architect::Automata, Architect::Drunkard] {
        for seed in 0..20u64 {
            let s = settings(arch, 8, 4, 2, 3);
            let mb = MapBuilder::new(RngComponent::with_seed(seed), 30, 40, &s).unwrap();
            check_level(&mb, &s);
        }
    }
}

#[test]
fn same_seed_same_level() {
    for arch in [Architect::Standard, Architect::Automata, Architect::Drunkard] {
        let s = settings(arch, 8, 4, 2, 3);
        let a = MapBuilder::new(RngComponent::with_seed(7), 30, 40, &s).unwrap();
        let b = MapBuilder::new(RngComponent::with_seed(7), 30, 40, &s).unwrap();
        assert_eq!(a.map.tiles, b.map.tiles);
        assert_eq!(a.monster_spawns, b.monster_spawns);
        assert_eq!(a.winitem_start, b.winitem_start);
    }
}

#[test]
fn empty_ten_by_ten_three_monsters() {
    let s = settings(Architect::Empty, 3, 0, 0, 2);
    let mb = MapBuilder::new(RngComponent::with_seed(3), 10, 10, &s).unwrap();
    assert_eq!(mb.player_start, Position::new(5, 5));
    assert_eq!(mb.monster_spawns.len(), 3);
    for p in mb.monster_spawns.iter() {
        assert!(mb.map.can_enter(*p));
        let dx = (p.x - mb.player_start.x) as f64;
        let dy = (p.y - mb.player_start.y) as f64;
        assert!((dx * dx + dy * dy).sqrt() >= 2.0);
    }
    check_level(&mb, &s);
}

#[test]
fn empty_level_exit_is_the_far_corner() {
    let s = settings(Architect::Empty, 0, 0, 0, 0);
    let mb = MapBuilder::new(RngComponent::with_seed(1), 10, 10, &s).unwrap();
    assert_eq!(mb.winitem_start, Position::new(0, 0));
}

#[test]
fn more_spawns_than_tiles_gives_every_candidate() {
    let s = settings(Architect::Empty, 100, 0, 0, 0);
    let mb = MapBuilder::new(RngComponent::with_seed(9), 3, 3, &s).unwrap();
    assert_eq!(mb.monster_spawns.len(), 7);
}

#[test]
fn drunkard_small_grid_full_coverage_terminates_connected() {
    let mut rng = RngComponent::with_seed(11);
    let l = build_drunkard(5, 5, 100, &mut rng);
    assert!(l.grid.can_enter(l.start));
    assert_eq!(l.start, Position::new(2, 2));
    assert!(all_floor_reached(&l.grid, l.start));
}

#[test]
fn empty_architect_is_all_floor() {
    let l = build_empty(4, 6);
    assert_eq!(l.start, Position::new(3, 2));
    assert!(l.grid.tiles.iter().all(|t| *t == TileKind::Floor));
    assert!(l.rooms.is_empty());
}

#[test]
fn standard_architect_rooms_are_apart() {
    for seed in 0..10u64 {
        let mut rng = RngComponent::with_seed(seed);
        let l = build_standard(40, 60, &mut rng);
        assert!(!l.rooms.is_empty());
        assert_eq!(l.start, l.rooms[0].center());
        assert!(l.grid.can_enter(l.start));
        for a in 0..l.rooms.len() {
            for b in a + 1..l.rooms.len() {
                assert!(!l.rooms[a].overlaps(&l.rooms[b]));
            }
        }
    }
}

#[test]
fn automata_keeps_one_region() {
    for seed in 0..10u64 {
        let mut rng = RngComponent::with_seed(seed);
        let l = build_automata(30, 30, &mut rng);
        assert!(l.grid.can_enter(l.start));
        assert!(all_floor_reached(&l.grid, l.start));
    }
}

#[test]
fn render_marks_start_and_exit() {
    let s = settings(Architect::Empty, 0, 0, 0, 0);
    let mb = MapBuilder::new(RngComponent::with_seed(1), 1, 3, &s).unwrap();
    assert_eq!(mb.render(), "?@.");
    let mb = MapBuilder::new(RngComponent::with_seed(1), 2, 2, &s).unwrap();
    assert_eq!(mb.render(), "?.\n.@");
}

#[test]
fn fill_in_unreachable_seals_and_is_stable() {
    let s = settings(Architect::Empty, 0, 0, 0, 0);
    let mut mb = MapBuilder::new(RngComponent::with_seed(1), 5, 5, &s).unwrap();
    for y in 0..5 {
        mb.map.set(Position::new(3, y), TileKind::Wall);
    }
    mb.fill_in_unreachable();
    assert_eq!(mb.map.tiles.iter().filter(|t| **t == TileKind::Floor).count(), 15);
    let once = mb.map.tiles.clone();
    mb.fill_in_unreachable();
    assert_eq!(mb.map.tiles, once);
    assert_eq!(mb.find_most_distant(), Some(Position::new(0, 0)));
}

#[test]
fn drunkard_walks_carve_beyond_the_centre() {
    let mut rng = RngComponent::with_seed(21);
    let l = build_drunkard(9, 9, 50, &mut rng);
    let floors = l.grid.tiles.iter().filter(|t| **t == TileKind::Floor).count();
    assert!(floors >= 40);
    assert!(all_floor_reached(&l.grid, l.start));
}

#[test]
fn carve_walk_floors_exactly_the_tiles_stood_on() {
    let mut g = Grid::new(4, 3, TileKind::Wall).unwrap();
    // east, east, east (blocked at the edge), south, west
    let carved = carve_walk(&mut g, Position::new(1, 0), &vec![1, 1, 1, 3, 0, 2]);
    let floors: Vec<usize> = (0..12).filter(|i| g.tiles[*i] == TileKind::Floor).collect();
    assert_eq!(floors, vec![1, 2, 3, 6, 7]);
    assert_eq!(carved, 5);
}

#[test]
fn automata_keeps_the_largest_region() {
    let mut noise = Grid::new(7, 3, TileKind::Wall).unwrap();
    for x in 0..7 {
        for y in 0..3 {
            if x != 3 {
                noise.set(Position::new(x, y), TileKind::Floor);
            }
        }
    }
    let l = automata_from_noise(noise);
    assert!(l.grid.can_enter(l.start));
    assert!(all_floor_reached(&l.grid, l.start));
}

#[test]
fn automata_without_floor_carves_the_centre() {
    let noise = Grid::new(5, 5, TileKind::Wall).unwrap();
    let l = automata_from_noise(noise);
    assert_eq!(l.start, Position::new(2, 2));
    assert_eq!(l.grid.tiles.iter().filter(|t| **t == TileKind::Floor).count(), 1);
}

#[test]
fn empty_level_is_floor_outside_the_prefab() {
    let s = settings(Architect::Empty, 3, 2, 1, 2);
    let mb = MapBuilder::new(RngComponent::with_seed(5), 30, 30, &s).unwrap();
    assert_eq!(mb.player_start, Position::new(15, 15));
    for i in 0..mb.map.tiles.len() {
        if !mb.reserved[i] {
            assert_eq!(mb.map.tiles[i], TileKind::Floor);
        }
    }
    for p in mb.monster_spawns.iter().chain(mb.item_spawns.iter()).chain(mb.npc_spawns.iter()) {
        assert!(!mb.reserved[(p.y * 30 + p.x) as usize]);
    }
}

#[test]
fn drunkard_stops_at_its_coverage_target() {
    let mut rng = RngComponent::with_seed(4);
    let l = build_drunkard(20, 20, 30, &mut rng);
    let floors = l.grid.tiles.iter().filter(|t| **t == TileKind::Floor).count();
    assert!(floors >= 120);
    assert!(floors < 120 + 400);
}

use cake_addict::distance::{DistanceMap, UNREACHABLE};
use cake_addict::grid::{Grid, GridError, TileKind};
use cake_addict::position::Position;

fn grid_from(rows: &[&str]) -> Grid {
    let mut g = Grid::new(rows[0].len(), rows.len(), TileKind::Floor).unwrap();
    for (y, row) in rows.iter().enumerate() {
        for (x, c) in row.chars().enumerate() {
            if c == '#' {
                g.set(Position::new(x as i32, y as i32), TileKind::Wall);
            }
        }
    }
    g
}

#[test]
fn new_refuses_zero_dimensions() {
    assert!(matches!(Grid::new(0, 3, TileKind::Floor), Err(GridError::NonPositiveDimension)));
    assert!(matches!(Grid::new(3, 0, TileKind::Floor), Err(GridError::NonPositiveDimension)));
    let g = Grid::new(3, 2, TileKind::Wall).unwrap();
    assert_eq!(g.tiles.len(), 6);
}

#[test]
fn outside_reads_as_wall() {
    let g = Grid::new(3, 3, TileKind::Floor).unwrap();
    assert_eq!(g.get(Position::new(-1, 0)), TileKind::Wall);
    assert_eq!(g.get(Position::new(3, 0)), TileKind::Wall);
    assert_eq!(g.get(Position::new(0, 3)), TileKind::Wall);
    assert_eq!(g.get(Position::new(2, 2)), TileKind::Floor);
    assert!(!g.can_enter(Position::new(i32::MIN, i32::MAX)));
}

#[test]
fn set_changes_one_tile_and_ignores_outside() {
    let mut g = Grid::new(3, 2, TileKind::Floor).unwrap();
    g.set(Position::new(1, 1), TileKind::Wall);
    assert_eq!(g.tiles[4], TileKind::Wall);
    assert_eq!(g.tiles.iter().filter(|t| **t == TileKind::Wall).count(), 1);
    g.set(Position::new(5, 5), TileKind::Wall);
    assert_eq!(g.tiles.iter().filter(|t| **t == TileKind::Wall).count(), 1);
}

#[test]
fn neighbours_in_west_east_north_south_order() {
    let g = grid_from(&["...", "..#", "..."]);
    assert_eq!(
        g.neighbours(Position::new(1, 1)),
        vec![Position::new(0, 1), Position::new(1, 0), Position::new(1, 2)]
    );
    assert_eq!(g.neighbours(Position::new(0, 0)), vec![Position::new(1, 0), Position::new(0, 1)]);
}

#[test]
fn position_index_and_translation() {
    let p = Position::new(2, 1);
    assert_eq!(p.to_index(4, 3), Some(6));
    assert_eq!(p.to_index(2, 3), None);
    assert_eq!(Position::new(-1, 0).to_index(4, 3), None);
    assert_eq!(p.translation(16), (32, 16));
    assert_eq!(Position::new(-3, 5).translation(-2), (6, -10));
}

#[test]
fn distances_follow_the_corridor() {
    let g = grid_from(&["....", "###.", "....", "#..."]);
    let m = DistanceMap::new(&g, Position::new(0, 0));
    assert_eq!(m.distance(Position::new(0, 0)), 0);
    assert_eq!(m.distance(Position::new(3, 0)), 3);
    assert_eq!(m.distance(Position::new(3, 1)), 4);
    assert_eq!(m.distance(Position::new(0, 2)), 8);
    assert_eq!(m.distance(Position::new(1, 3)), 8);
    assert_eq!(m.distance(Position::new(0, 1)), UNREACHABLE);
    assert_eq!(m.distance(Position::new(0, 3)), UNREACHABLE);
    assert_eq!(m.distance(Position::new(9, 9)), UNREACHABLE);
    assert_eq!(m.furthest_point(), Some(Position::new(0, 2)));
}

#[test]
fn wall_source_reaches_nothing() {
    let g = grid_from(&["#.", ".."]);
    let m = DistanceMap::new(&g, Position::new(0, 0));
    assert!(m.dist.iter().all(|d| *d == UNREACHABLE));
    assert_eq!(m.furthest_point(), None);
    let m = DistanceMap::new(&g, Position::new(5, 0));
    assert!(m.dist.iter().all(|d| *d == UNREACHABLE));
}

#[test]
fn furthest_point_prefers_first_in_row_major_order() {
    let g = Grid::new(3, 3, TileKind::Floor).unwrap();
    let m = DistanceMap::new(&g, Position::new(1, 1));
    assert_eq!(m.furthest_point(), Some(Position::new(0, 0)));
    assert_eq!(m.furthest_point(), m.furthest_point());
}

#[test]
fn far_points_with_and_without_threshold() {
    let g = grid_from(&["..#", "#.."]);
    let m = DistanceMap::new(&g, Position::new(0, 0));
    assert_eq!(m.far_points(None), vec![Position::new(2, 0), Position::new(0, 1)]);
    assert_eq!(
        m.far_points(Some(1)),
        vec![Position::new(2, 0), Position::new(0, 1), Position::new(1, 1), Position::new(2, 1)]
    );
}

#[test]
fn sealing_twice_seals_nothing_more() {
    let mut g = grid_from(&["..#..", "..#..", "#####", "....."]);
    g.seal_unreachable(Position::new(0, 0));
    let once = g.tiles.clone();
    assert_eq!(once.iter().filter(|t| **t == TileKind::Floor).count(), 4);
    g.seal_unreachable(Position::new(0, 0));
    assert_eq!(g.tiles, once);
}

#[test]
fn isolated_source_is_its_own_furthest_point() {
    let g = grid_from(&["#.#", "#.#", "###"]);
    let g2 = grid_from(&["...", "#.#", "..."]);
    let m = DistanceMap::new(&g2, Position::new(0, 2));
    assert_eq!(m.furthest_point(), Some(Position::new(0, 0)));
    let mut h = g;
    h.set(Position::new(1, 0), TileKind::Wall);
    let m = DistanceMap::new(&h, Position::new(1, 1));
    assert_eq!(m.furthest_point(), Some(Position::new(1, 1)));
}

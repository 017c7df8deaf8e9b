use cake_addict::grid::{Grid, TileKind};
use cake_addict::monsters::{
    draw_npc_kind, draw_weighted, kinds_on_level, monster_for_roll, pick_weighted, random_monster,
    MonsterKind,
};
use cake_addict::position::Position;
use cake_addict::turn::{
    pick_up_target, player_move_action, quest_givers_in_reach, resolve_move, Phase, PlayerAction,
    PlayerIntent, TurnState,
};
use bevy_turborand::RngComponent;

#[test]
fn move_runs_one_full_cycle() {
    let s = TurnState::AwaitingInput;
    let s = s.advance(PlayerIntent::Move { dx: 1, dy: 0 }, false);
    assert_eq!(s, TurnState::PlayerTurn);
    let s = s.advance(PlayerIntent::Idle, false);
    assert_eq!(s, TurnState::MonsterTurn);
    let s = s.advance(PlayerIntent::Idle, false);
    assert_eq!(s, TurnState::AwaitingInput);
}

#[test]
fn waiting_needs_a_real_intent() {
    let s = TurnState::AwaitingInput;
    assert_eq!(s.advance(PlayerIntent::Idle, false), TurnState::AwaitingInput);
    assert_eq!(s.advance(PlayerIntent::Move { dx: 0, dy: 0 }, false), TurnState::AwaitingInput);
    assert_eq!(s.advance(PlayerIntent::PickUp, false), TurnState::PlayerTurn);
    assert_eq!(s.advance(PlayerIntent::Interact, false), TurnState::PlayerTurn);
    assert_eq!(s.advance(PlayerIntent::UseItem(3), false), TurnState::PlayerTurn);
}

#[test]
fn level_complete_gives_one_next_level_tick() {
    for s in [TurnState::AwaitingInput, TurnState::PlayerTurn, TurnState::MonsterTurn] {
        let n = s.advance(PlayerIntent::Move { dx: 0, dy: 1 }, true);
        assert_eq!(n, TurnState::NextLevel);
        assert_eq!(n.advance(PlayerIntent::Idle, true), TurnState::AwaitingInput);
    }
}

#[test]
fn phases_follow_the_state() {
    assert_eq!(TurnState::AwaitingInput.phase(), Phase::ReadInput);
    assert_eq!(TurnState::PlayerTurn.phase(), Phase::ResolvePlayer);
    assert_eq!(TurnState::MonsterTurn.phase(), Phase::MonsterActions);
    assert_eq!(TurnState::NextLevel.phase(), Phase::Regenerate);
}

#[test]
fn moving_into_a_monster_attacks_the_last_one_there() {
    let monsters = vec![Position::new(2, 1), Position::new(5, 5), Position::new(2, 1)];
    assert_eq!(
        player_move_action(Position::new(1, 1), 1, 0, &monsters),
        Some(PlayerAction::Attack(2))
    );
    assert_eq!(
        player_move_action(Position::new(1, 1), 0, 1, &monsters),
        Some(PlayerAction::MoveTo(Position::new(1, 2)))
    );
    assert_eq!(player_move_action(Position::new(1, 1), 0, 0, &monsters), None);
}

#[test]
fn walls_block_moves() {
    let mut g = Grid::new(3, 3, TileKind::Floor).unwrap();
    g.set(Position::new(1, 0), TileKind::Wall);
    let here = Position::new(0, 0);
    assert_eq!(resolve_move(&g, here, Position::new(1, 0)), here);
    assert_eq!(resolve_move(&g, here, Position::new(0, 1)), Position::new(0, 1));
    assert_eq!(resolve_move(&g, here, Position::new(-1, 0)), here);
}

#[test]
fn rolls_select_species() {
    assert_eq!(monster_for_roll(0).kind, MonsterKind::YogaBunny);
    assert_eq!(monster_for_roll(60).kind, MonsterKind::YogaBunny);
    assert_eq!(monster_for_roll(61).kind, MonsterKind::GymBro);
    assert_eq!(monster_for_roll(80).kind, MonsterKind::GymBro);
    assert_eq!(monster_for_roll(81).kind, MonsterKind::Nutritionist);
    assert_eq!(monster_for_roll(95).kind, MonsterKind::Nutritionist);
    assert_eq!(monster_for_roll(96).kind, MonsterKind::SupplementPusher);
    let g = monster_for_roll(70);
    assert_eq!(g.name, "Gym Bro");
    assert_eq!(g.health, 4);
    assert_eq!(g.sprite_index, 79);
    let n = monster_for_roll(90);
    assert_eq!((n.name.as_str(), n.health, n.sprite_index), ("Nutritionist", 2, 111));
}

#[test]
fn random_monster_is_a_known_species() {
    let mut rng = RngComponent::with_seed(5);
    for _ in 0..50 {
        let m = random_monster(&mut rng);
        assert!(m.health >= 1 && m.health <= 4);
    }
}

#[test]
fn weighted_pick_uses_cumulative_shares() {
    let w = vec![3u32, 0, 2];
    assert_eq!(pick_weighted(&w, 0), Some(0));
    assert_eq!(pick_weighted(&w, 2), Some(0));
    assert_eq!(pick_weighted(&w, 3), Some(2));
    assert_eq!(pick_weighted(&w, 4), Some(2));
    assert_eq!(pick_weighted(&w, 5), None);
    assert_eq!(pick_weighted(&vec![], 0), None);
}

#[test]
fn weighted_draw_skips_zero_weights() {
    let mut rng = RngComponent::with_seed(12);
    assert_eq!(draw_weighted(&vec![0u32, 0], &mut rng), None);
    for _ in 0..50 {
        let k = draw_weighted(&vec![0u32, 5, 0, 1], &mut rng).unwrap();
        assert!(k == 1 || k == 3);
    }
}

#[test]
fn pick_up_takes_the_last_item_underfoot() {
    let items = vec![Position::new(1, 1), Position::new(2, 2), Position::new(1, 1)];
    assert_eq!(pick_up_target(Position::new(1, 1), &items), Some(2));
    assert_eq!(pick_up_target(Position::new(2, 2), &items), Some(1));
    assert_eq!(pick_up_target(Position::new(0, 0), &items), None);
}

#[test]
fn quest_givers_next_to_the_player_are_in_reach() {
    let givers = vec![
        Position::new(1, 1),
        Position::new(2, 2),
        Position::new(0, 1),
        Position::new(3, 1),
        Position::new(1, 2),
    ];
    assert_eq!(quest_givers_in_reach(Position::new(1, 1), &givers), vec![0, 2, 4]);
    assert_eq!(quest_givers_in_reach(Position::new(i32::MAX, i32::MIN), &givers), Vec::<usize>::new());
}

#[test]
fn a_single_kind_is_taken_whatever_its_weight() {
    let mut rng = RngComponent::with_seed(3);
    assert_eq!(draw_weighted(&vec![0u32], &mut rng), Some(0));
    assert_eq!(draw_weighted(&vec![], &mut rng), None);
}

#[test]
fn npc_kinds_are_filtered_by_level() {
    let levels = vec![vec![0u32, 1], vec![2], vec![1, 2]];
    assert_eq!(kinds_on_level(&levels, 1), vec![0, 2]);
    assert_eq!(kinds_on_level(&levels, 2), vec![1, 2]);
    assert_eq!(kinds_on_level(&levels, 5), Vec::<usize>::new());
    let mut rng = RngComponent::with_seed(9);
    let weights = vec![10u32, 10, 0];
    for _ in 0..30 {
        assert_eq!(draw_npc_kind(&levels, &weights, 1, &mut rng), Some(0));
        let k = draw_npc_kind(&levels, &weights, 2, &mut rng).unwrap();
        assert_eq!(k, 1);
    }
    assert_eq!(draw_npc_kind(&levels, &weights, 5, &mut rng), None);
    assert_eq!(draw_npc_kind(&levels, &vec![0, 0, 0], 2, &mut rng), None);
    assert_eq!(draw_npc_kind(&levels, &vec![0, 7, 0], 0, &mut rng), Some(0));
}

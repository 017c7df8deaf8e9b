use vstd::prelude::*;
use crate::grid::Grid;
use crate::position::Position;

verus! {

/// The phase of the turn loop; exactly one is active at a time.
#[derive(Clone, Copy, PartialEq, Eq, Structural, Debug)]
pub enum TurnState {
    AwaitingInput,
    PlayerTurn,
    MonsterTurn,
    NextLevel,
}

/// What the player asked for during one tick.
#[derive(Clone, Copy, PartialEq, Eq, Structural, Debug)]
pub enum PlayerIntent {
    Idle,
    Move { dx: i32, dy: i32 },
    PickUp,
    Interact,
    UseItem(usize),
}

/// The work that the surrounding game runs during a tick in a given state.
#[derive(Clone, Copy, PartialEq, Eq, Structural, Debug)]
pub enum Phase {
    /// Read the player's intent.
    ReadInput,
    /// Move the player and resolve collisions and attacks.
    ResolvePlayer,
    /// Let every monster act and resolve its collisions.
    MonsterActions,
    /// Generate a new level and respawn everything on it.
    Regenerate,
}

/// An intent that ends the wait for input: any but `Idle` and a move by zero.
pub open spec fn is_resolved(intent: PlayerIntent) -> bool {
    match intent {
        PlayerIntent::Idle => false,
        PlayerIntent::Move { dx, dy } => dx != 0 || dy != 0,
        _ => true,
    }
}

/// The state after one tick. Leaving NextLevel (the new level is in place)
/// goes back to waiting for input; otherwise a completed level pre-empts
/// the cycle AwaitingInput, PlayerTurn, MonsterTurn.
pub open spec fn next_state(state: TurnState, intent: PlayerIntent, level_complete: bool) -> TurnState {
    match state {
        TurnState::NextLevel => TurnState::AwaitingInput,
        _ => if level_complete {
            TurnState::NextLevel
        } else {
            match state {
                TurnState::AwaitingInput => if is_resolved(intent) {
                    TurnState::PlayerTurn
                } else {
                    TurnState::AwaitingInput
                },
                TurnState::PlayerTurn => TurnState::MonsterTurn,
                _ => TurnState::AwaitingInput,
            }
        },
    }
}

pub open spec fn phase_spec(state: TurnState) -> Phase {
    match state {
        TurnState::AwaitingInput => Phase::ReadInput,
        TurnState::PlayerTurn => Phase::ResolvePlayer,
        TurnState::MonsterTurn => Phase::MonsterActions,
        TurnState::NextLevel => Phase::Regenerate,
    }
}

impl PlayerIntent {
    /// Whether this intent ends the wait for input.
    pub fn is_resolved(&self) -> (r: bool)
        ensures
            r == is_resolved(*self),
    {
        match self {
            PlayerIntent::Idle => false,
            PlayerIntent::Move { dx, dy } => *dx != 0 || *dy != 0,
            _ => true,
        }
    }
}

impl TurnState {
    /// The work to run during a tick in this state.
    pub fn phase(&self) -> (r: Phase)
        ensures
            r == phase_spec(*self),
    {
        match self {
            TurnState::AwaitingInput => Phase::ReadInput,
            TurnState::PlayerTurn => Phase::ResolvePlayer,
            TurnState::MonsterTurn => Phase::MonsterActions,
            TurnState::NextLevel => Phase::Regenerate,
        }
    }

    /// The one transition of a tick.
    pub fn advance(&self, intent: PlayerIntent, level_complete: bool) -> (r: TurnState)
        ensures
            r == next_state(*self, intent, level_complete),
    {
        match self {
            TurnState::NextLevel => TurnState::AwaitingInput,
            _ => {
                if level_complete {
                    TurnState::NextLevel
                } else {
                    match self {
                        TurnState::AwaitingInput => {
                            if intent.is_resolved() {
                                TurnState::PlayerTurn
                            } else {
                                TurnState::AwaitingInput
                            }
                        },
                        TurnState::PlayerTurn => TurnState::MonsterTurn,
                        _ => TurnState::AwaitingInput,
                    }
                }
            },
        }
    }
}

/// A move from waiting for input runs one player turn and one monster turn
/// and then waits again; a completed level leads from any state to exactly
/// one NextLevel tick and then back to waiting for input.
pub proof fn lemma_turn_cycle(state: TurnState, intent: PlayerIntent, other: PlayerIntent, level_complete: bool)
    ensures
        is_resolved(intent) ==> next_state(TurnState::AwaitingInput, intent, false)
            == TurnState::PlayerTurn,
        next_state(TurnState::PlayerTurn, other, false) == TurnState::MonsterTurn,
        next_state(TurnState::MonsterTurn, other, false) == TurnState::AwaitingInput,
        state != TurnState::NextLevel ==> next_state(state, intent, true) == TurnState::NextLevel,
        next_state(TurnState::NextLevel, other, level_complete) == TurnState::AwaitingInput,
{
}

/// What a move by the player does.
#[derive(Clone, Copy, PartialEq, Eq, Structural, Debug)]
pub enum PlayerAction {
    /// Attack the monster at this index of the monster list.
    Attack(usize),
    /// Walk to this tile, if it can be entered.
    MoveTo(Position),
}

/// The last index of `monsters` that holds `p`, if any.
pub open spec fn last_index_of(monsters: Seq<Position>, p: Position) -> Option<int> {
    if exists|k: int| 0 <= k < monsters.len() && monsters[k] == p {
        Some(
            choose|k: int|
                0 <= k < monsters.len() && monsters[k] == p && forall|j: int|
                    k < j < monsters.len() ==> monsters[j] != p,
        )
    } else {
        None
    }
}

/// A move by `(dx, dy)` from `pos` attacks the last monster standing on the
/// target tile, if any, and otherwise walks there; a move by zero does nothing.
pub fn player_move_action(pos: Position, dx: i32, dy: i32, monsters: &Vec<Position>) -> (r: Option<
    PlayerAction,
>)
    requires
        i32::MIN <= pos.x + dx <= i32::MAX,
        i32::MIN <= pos.y + dy <= i32::MAX,
    ensures
        (dx == 0 && dy == 0) ==> r is None,
        !(dx == 0 && dy == 0) ==> r == Some(
            match last_index_of(monsters@, Position { x: (pos.x + dx) as i32, y: (pos.y + dy) as i32 }) {
                Some(k) => PlayerAction::Attack(k as usize),
                None => PlayerAction::MoveTo(Position { x: (pos.x + dx) as i32, y: (pos.y + dy) as i32 }),
            },
        ),
{
    if dx == 0 && dy == 0 {
        return None;
    }
    let dest = Position { x: pos.x + dx, y: pos.y + dy };
    let mut k: usize = monsters.len();
    while k > 0
        invariant
            !(dx == 0 && dy == 0),
            dest == (Position { x: (pos.x + dx) as i32, y: (pos.y + dy) as i32 }),
            k <= monsters@.len(),
            forall|j: int| k <= j < monsters@.len() ==> monsters@[j] != dest,
        decreases k,
    {
        if monsters[k - 1] == dest {
            proof {
                let c = choose|c: int|
                    0 <= c < monsters@.len() && monsters@[c] == dest && forall|j: int|
                        c < j < monsters@.len() ==> monsters@[j] != dest;
                assert(0 <= k - 1 < monsters@.len() && monsters@[k - 1] == dest && forall|j: int|
                    k - 1 < j < monsters@.len() ==> monsters@[j] != dest);
                if c < k - 1 {
                    assert(monsters@[k - 1] != dest);
                } else if c > k - 1 {
                    assert(monsters@[c] != dest);
                }
            }
            return Some(PlayerAction::Attack(k - 1));
        }
        k = k - 1;
    }
    Some(PlayerAction::MoveTo(dest))
}

/// Where a walker ends up: on `dest` when it can be entered, else where it stood.
pub fn resolve_move(grid: &Grid, pos: Position, dest: Position) -> (r: Position)
    requires
        grid.wf(),
    ensures
        r == (if grid.enterable(dest) {
            dest
        } else {
            pos
        }),
{
    if grid.can_enter(dest) {
        dest
    } else {
        pos
    }
}

/// The item to pick up: the last one lying on the player's tile.
pub fn pick_up_target(pos: Position, items: &Vec<Position>) -> (r: Option<usize>)
    ensures
        r == (match last_index_of(items@, pos) {
            Some(k) => Some(k as usize),
            None => None::<usize>,
        }),
{
    let mut k: usize = items.len();
    while k > 0
        invariant
            k <= items@.len(),
            forall|j: int| k <= j < items@.len() ==> items@[j] != pos,
        decreases k,
    {
        if items[k - 1] == pos {
            proof {
                let c = choose|c: int|
                    0 <= c < items@.len() && items@[c] == pos && forall|j: int|
                        c < j < items@.len() ==> items@[j] != pos;
                assert(0 <= k - 1 < items@.len() && items@[k - 1] == pos && forall|j: int|
                    k - 1 < j < items@.len() ==> items@[j] != pos);
                if c < k - 1 {
                    assert(items@[k - 1] != pos);
                } else if c > k - 1 {
                    assert(items@[c] != pos);
                }
            }
            return Some(k - 1);
        }
        k = k - 1;
    }
    None
}

/// `q` is on `p` or next to it, west, east, north or south.
pub open spec fn within_reach(p: Position, q: Position) -> bool {
    (p.x - q.x) * (p.x - q.x) + (p.y - q.y) * (p.y - q.y) <= 1
}

/// The indices, in order, of the quest givers within reach of the player.
pub fn quest_givers_in_reach(pos: Position, givers: &Vec<Position>) -> (r: Vec<usize>)
    ensures
        forall|k: int| 0 <= k < r@.len() ==> #[trigger] r@[k] < givers@.len() && within_reach(
            pos,
            givers@[r@[k] as int],
        ),
        forall|k1: int, k2: int| 0 <= k1 < k2 < r@.len() ==> #[trigger] r@[k1] < #[trigger] r@[k2],
        forall|j: int| 0 <= j < givers@.len() && within_reach(pos, #[trigger] givers@[j]) ==> r@.contains(
            j as usize,
        ),
{
    let mut r: Vec<usize> = Vec::new();
    let mut j: usize = 0;
    while j < givers.len()
        invariant
            j <= givers@.len(),
            forall|k: int| 0 <= k < r@.len() ==> #[trigger] r@[k] < j && within_reach(
                pos,
                givers@[r@[k] as int],
            ),
            forall|k1: int, k2: int| 0 <= k1 < k2 < r@.len() ==> #[trigger] r@[k1] < #[trigger] r@[k2],
            forall|i: int| 0 <= i < j && within_reach(pos, #[trigger] givers@[i]) ==> r@.contains(
                i as usize,
            ),
        decreases givers@.len() - j,
    {
        let q = givers[j];
        let dx: i64 = pos.x as i64 - q.x as i64;
        let dy: i64 = pos.y as i64 - q.y as i64;
        let near = -1 <= dx && dx <= 1 && -1 <= dy && dy <= 1 && (dx == 0 || dy == 0);
        proof {
            let dxi = dx as int;
            let dyi = dy as int;
            if !(-1 <= dxi <= 1) {
                assert(dxi * dxi >= 4) by (nonlinear_arith)
                    requires
                        !(-1 <= dxi <= 1),
                ;
                assert(dyi * dyi >= 0) by (nonlinear_arith);
            }
            if !(-1 <= dyi <= 1) {
                assert(dyi * dyi >= 4) by (nonlinear_arith)
                    requires
                        !(-1 <= dyi <= 1),
                ;
                assert(dxi * dxi >= 0) by (nonlinear_arith);
            }
            if -1 <= dxi <= 1 && -1 <= dyi <= 1 {
                assert(dxi == -1 || dxi == 0 || dxi == 1);
                assert(dyi == -1 || dyi == 0 || dyi == 1);
                if dxi == 0 {
                    assert(dxi * dxi == 0) by (nonlinear_arith)
                        requires
                            dxi == 0,
                    ;
                } else {
                    assert(dxi * dxi == 1) by (nonlinear_arith)
                        requires
                            dxi == 1 || dxi == -1,
                    ;
                }
                if dyi == 0 {
                    assert(dyi * dyi == 0) by (nonlinear_arith)
                        requires
                            dyi == 0,
                    ;
                } else {
                    assert(dyi * dyi == 1) by (nonlinear_arith)
                        requires
                            dyi == 1 || dyi == -1,
                    ;
                }
            }
            assert(near == within_reach(pos, q));
        }
        if near {
            let ghost before = r@;
            r.push(j);
            proof {
                assert(r@[r@.len() - 1] == j);
                assert forall|i: int| 0 <= i < j + 1 && within_reach(pos, #[trigger] givers@[i]) implies r@.contains(
                    i as usize,
                ) by {
                    if i < j {
                        let k = choose|k: int| 0 <= k < before.len() && before[k] == i as usize;
                        assert(r@[k] == i as usize);
                    }
                }
            }
        }
        j = j + 1;
    }
    r
}

} // verus!

use hex_range::board::default_obstacles;
use hex_range::board::map_tiles;
use hex_range::hex::Axial;
use hex_range::hex::HexDistance;
use hex_range::movement::MoveError;
use hex_range::movement::MovementRange;
use hex_range::movement::Mp;
use hex_range::movement::UnitState;

fn ax(q: i64, r: i64) -> Axial {
    Axial::new(q, r)
}

#[test]
fn mp_new_starts_full() {
    let mp = Mp::new(4);
    assert_eq!(mp.base, 4);
    assert_eq!(mp.current, 4);
}

#[test]
fn lookup_finds_stored_distance() {
    let range = MovementRange { hexes: ax(0, 0).new_bfs(&default_obstacles(), 4) };
    assert_eq!(range.lookup(ax(1, 0)), Some(1));
    assert_eq!(range.lookup(ax(0, 2)), Some(3));
    assert_eq!(range.lookup(ax(0, 1)), None); // an obstacle
    assert_eq!(range.lookup(ax(0, 0)), None); // the origin
    assert_eq!(range.lookup(ax(9, 9)), None); // out of budget
}

#[test]
fn spawn_computes_fresh_range() {
    let u = UnitState::spawn(ax(0, 0), 4, &default_obstacles());
    assert_eq!(u.pos, ax(0, 0));
    assert_eq!(u.mp.base, 4);
    assert_eq!(u.mp.current, 4);
    assert_eq!(u.range.hexes.len(), 48);
}

#[test]
fn try_move_commits_and_recomputes() {
    let obstacles = default_obstacles();
    let mut u = UnitState::spawn(ax(0, 0), 4, &obstacles);
    let res = u.try_move(ax(2, -1), &obstacles);
    assert_eq!(res, Ok(2));
    assert_eq!(u.pos, ax(2, -1));
    assert_eq!(u.mp.base, 4);
    assert_eq!(u.mp.current, 2);
    // the range was wholly replaced: it now centres on the new position
    // with the smaller budget
    let fresh = ax(2, -1).new_bfs(&obstacles, 2);
    assert_eq!(u.range.hexes.len(), fresh.len());
    assert_eq!(u.range.lookup(ax(2, -1)), None);
    assert_eq!(u.range.lookup(ax(2, 0)), Some(1));
}

#[test]
fn try_move_out_of_range_changes_nothing() {
    let obstacles = default_obstacles();
    let mut u = UnitState::spawn(ax(0, 0), 4, &obstacles);
    let res = u.try_move(ax(0, 1), &obstacles); // an obstacle hex
    assert_eq!(res, Err(MoveError::NotInRange));
    assert_eq!(u.pos, ax(0, 0));
    assert_eq!(u.mp.current, 4);
    assert_eq!(u.range.hexes.len(), 48);
    let res = u.try_move(ax(9, 9), &obstacles); // far outside the budget
    assert_eq!(res, Err(MoveError::NotInRange));
}

#[test]
fn try_move_insufficient_budget_is_refused() {
    // a stale range claiming a distance beyond the current points: the
    // budget check still protects the unsigned subtraction
    let mut u = UnitState {
        pos: ax(0, 0),
        mp: Mp { base: 4, current: 1 },
        range: MovementRange {
            hexes: vec![HexDistance::new(ax(2, 0), 2), HexDistance::new(ax(1, 0), 1)],
        },
    };
    let res = u.try_move(ax(2, 0), &Vec::new());
    assert_eq!(res, Err(MoveError::InsufficientBudget));
    assert_eq!(u.pos, ax(0, 0));
    assert_eq!(u.mp.current, 1);
    assert_eq!(u.range.hexes.len(), 2);
}

#[test]
fn moves_chain_until_budget_runs_out() {
    let obstacles: Vec<Axial> = Vec::new();
    let mut u = UnitState::spawn(ax(0, 0), 3, &obstacles);
    assert_eq!(u.try_move(ax(2, 0), &obstacles), Ok(2));
    assert_eq!(u.try_move(ax(2, 1), &obstacles), Ok(1));
    assert_eq!(u.mp.current, 0);
    assert!(u.range.hexes.is_empty());
    assert_eq!(u.try_move(ax(2, 2), &obstacles), Err(MoveError::NotInRange));
}

#[test]
fn refresh_tracks_new_obstacles() {
    let mut u = UnitState::spawn(ax(0, 0), 1, &Vec::new());
    assert_eq!(u.range.hexes.len(), 6);
    let wall = vec![ax(1, 0), ax(0, 1), ax(-1, 1), ax(1, -1), ax(-1, 0), ax(0, -1)];
    u.refresh(&wall);
    assert_eq!(u.pos, ax(0, 0));
    assert_eq!(u.mp.current, 1);
    assert!(u.range.hexes.is_empty());
}

#[test]
fn default_obstacle_layout() {
    let obstacles = default_obstacles();
    assert_eq!(
        obstacles,
        vec![ax(0, 1), ax(1, 1), ax(2, 1), ax(3, 1), ax(-3, 1), ax(-3, 0), ax(-3, -1)]
    );
}

#[test]
fn map_tiles_cover_the_rectangle() {
    let tiles = map_tiles();
    assert_eq!(tiles.len(), 143);
    assert_eq!(tiles[0], ax(-5, -6));
    assert_eq!(tiles[12], ax(-5, 6));
    assert_eq!(tiles[13], ax(-4, -6));
    assert_eq!(tiles[142], ax(5, 6));
    for q in -5..=5i64 {
        for r in -6..=6i64 {
            assert!(tiles.contains(&ax(q, r)));
        }
    }
}

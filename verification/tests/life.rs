use game_of_life::grid::Cell;
use game_of_life::grid::LiveCellSet;
use game_of_life::rules::count_live_neighbors;
use game_of_life::rules::tick;
use game_of_life::rules::tick_safe;
use game_of_life::session::GameState;

fn set_of(cells: &[(i64, i64)]) -> LiveCellSet {
    let mut s = LiveCellSet::new();
    for &(x, y) in cells {
        s.set_alive(Cell::new(x, y));
    }
    s
}

fn sorted_positions(s: &LiveCellSet) -> Vec<(i64, i64)> {
    let mut v: Vec<(i64, i64)> = s.iterate().iter().map(|c| (c.x, c.y)).collect();
    v.sort();
    v
}

#[test]
fn empty_set_ticks_to_empty_set() {
    let mut s = LiveCellSet::new();
    tick(&mut s);
    assert_eq!(sorted_positions(&s), Vec::<(i64, i64)>::new());
}

#[test]
fn single_cell_dies() {
    let mut s = set_of(&[(0, 0)]);
    tick(&mut s);
    assert_eq!(sorted_positions(&s), Vec::<(i64, i64)>::new());
}

#[test]
fn two_cells_die() {
    let mut s = set_of(&[(0, 0), (1, 0)]);
    tick(&mut s);
    assert_eq!(sorted_positions(&s), Vec::<(i64, i64)>::new());
}

#[test]
fn cell_with_two_neighbors_survives() {
    let s0 = set_of(&[(0, 1), (1, 1), (2, 1)]);
    assert_eq!(count_live_neighbors(&s0, Cell::new(1, 1)), 2);
    let mut s = s0;
    tick(&mut s);
    assert!(s.is_alive(Cell::new(1, 1)));
}

#[test]
fn cell_with_three_neighbors_survives() {
    let s0 = set_of(&[(0, 0), (1, 0), (0, 1), (1, 1)]);
    assert_eq!(count_live_neighbors(&s0, Cell::new(0, 0)), 3);
    let mut s = s0;
    tick(&mut s);
    assert!(s.is_alive(Cell::new(0, 0)));
}

#[test]
fn dead_cell_with_three_neighbors_is_born() {
    let mut s = set_of(&[(0, 1), (1, 1), (2, 1)]);
    assert!(!s.is_alive(Cell::new(1, 0)));
    assert_eq!(count_live_neighbors(&s, Cell::new(1, 0)), 3);
    tick(&mut s);
    assert!(s.is_alive(Cell::new(1, 0)));
}

#[test]
fn dead_cell_without_three_neighbors_stays_dead() {
    let mut s = set_of(&[(0, 0), (1, 0)]);
    // (0, 1) has 2 live neighbors, (5, 5) has 0: neither is born.
    assert_eq!(count_live_neighbors(&s, Cell::new(0, 1)), 2);
    assert_eq!(count_live_neighbors(&s, Cell::new(5, 5)), 0);
    tick(&mut s);
    assert!(!s.is_alive(Cell::new(0, 1)));
    assert!(!s.is_alive(Cell::new(5, 5)));
}

#[test]
fn block_is_a_still_life() {
    let mut s = set_of(&[(0, 0), (1, 0), (0, 1), (1, 1)]);
    tick(&mut s);
    assert_eq!(sorted_positions(&s), vec![(0, 0), (0, 1), (1, 0), (1, 1)]);
}

#[test]
fn blinker_oscillates_with_period_two() {
    let mut s = set_of(&[(0, 1), (1, 1), (2, 1)]);
    tick(&mut s);
    assert_eq!(sorted_positions(&s), vec![(1, 0), (1, 1), (1, 2)]);
    tick(&mut s);
    assert_eq!(sorted_positions(&s), vec![(0, 1), (1, 1), (2, 1)]);
}

#[test]
fn count_live_neighbors_counts_chebyshev_distance_one() {
    // (4, 4), (4, 5) and (6, 6) are all at Chebyshev distance 1 from (5, 5).
    let s = set_of(&[(4, 4), (4, 5), (6, 6)]);
    assert_eq!(count_live_neighbors(&s, Cell::new(5, 5)), 3);
    // (6, 6) alone stops counting toward (4, 4): distance 2.
    assert_eq!(count_live_neighbors(&s, Cell::new(4, 4)), 1);
    // The center cell itself is never counted.
    let full = set_of(&[(4, 4), (4, 5), (4, 6), (5, 4), (5, 5), (5, 6), (6, 4), (6, 5), (6, 6)]);
    assert_eq!(count_live_neighbors(&full, Cell::new(5, 5)), 8);
}

#[test]
fn set_alive_then_is_alive_including_negative_coordinates() {
    let mut s = LiveCellSet::new();
    s.set_alive(Cell::new(-1000000007, 2000000011));
    assert!(s.is_alive(Cell::new(-1000000007, 2000000011)));
    s.set_dead(Cell::new(-1000000007, 2000000011));
    assert!(!s.is_alive(Cell::new(-1000000007, 2000000011)));
}

#[test]
fn set_dead_on_a_dead_cell_is_a_no_op() {
    let mut s = set_of(&[(3, 3)]);
    s.set_dead(Cell::new(7, 7));
    assert_eq!(sorted_positions(&s), vec![(3, 3)]);
}

#[test]
fn set_alive_is_idempotent() {
    let mut once = LiveCellSet::new();
    once.set_alive(Cell::new(2, -9));
    let mut twice = LiveCellSet::new();
    twice.set_alive(Cell::new(2, -9));
    twice.set_alive(Cell::new(2, -9));
    assert_eq!(sorted_positions(&once), sorted_positions(&twice));
    assert!(twice.is_alive(Cell::new(2, -9)));
}

#[test]
fn set_dead_is_idempotent() {
    let mut once = set_of(&[(2, -9), (0, 0)]);
    once.set_dead(Cell::new(2, -9));
    let mut twice = set_of(&[(2, -9), (0, 0)]);
    twice.set_dead(Cell::new(2, -9));
    twice.set_dead(Cell::new(2, -9));
    assert_eq!(sorted_positions(&once), sorted_positions(&twice));
    assert_eq!(sorted_positions(&twice), vec![(0, 0)]);
}

#[test]
fn clear_removes_all_members() {
    let mut s = set_of(&[(0, 0), (5, -5), (9, 9)]);
    s.clear();
    assert_eq!(sorted_positions(&s), Vec::<(i64, i64)>::new());
    assert!(!s.is_alive(Cell::new(0, 0)));
}

#[test]
fn iterate_lists_each_alive_cell_once() {
    let mut s = set_of(&[(1, 2), (3, 4), (1, 2)]);
    s.set_alive(Cell::new(3, 4));
    let v = s.iterate();
    assert_eq!(v.len(), 2);
    assert_eq!(sorted_positions(&s), vec![(1, 2), (3, 4)]);
}

#[test]
fn tick_safe_accepts_ordinary_sets_and_rejects_extreme_ones() {
    let s = set_of(&[(0, 0), (1, 1)]);
    assert!(tick_safe(&s));
    let edge = set_of(&[(i64::MAX, 0)]);
    assert!(!tick_safe(&edge));
    let near_edge = set_of(&[(i64::MAX - 2, 0)]);
    assert!(tick_safe(&near_edge));
}

#[test]
fn toggle_switches_between_the_two_modes() {
    let mut state = GameState::Placing;
    state.toggle();
    assert_eq!(state, GameState::Playing);
    state.toggle();
    assert_eq!(state, GameState::Placing);
}

#[test]
fn glider_moves_one_step_diagonally_in_four_ticks() {
    let mut s = set_of(&[(1, 0), (2, 1), (0, 2), (1, 2), (2, 2)]);
    for _ in 0..4 {
        tick(&mut s);
    }
    assert_eq!(sorted_positions(&s), vec![(1, 3), (2, 1), (2, 3), (3, 2), (3, 3)]);
}

use common::board::can_enter;
use common::{actions_to_string, apply_move, Action, Booster, PlayerState, Square, BFS};

fn open_grid(height: usize, width: usize) -> Vec<Vec<Square>> {
    vec![vec![Square::Empty; width]; height]
}

fn wall_with_gap() -> Vec<Vec<Square>> {
    let mut grid = open_grid(5, 5);
    for row in 0..4 {
        grid[row][2] = Square::Block;
    }
    grid
}

fn distance(a: (usize, usize), b: (usize, usize)) -> usize {
    a.0.abs_diff(b.0) + a.1.abs_diff(b.1)
}

fn replay(
    grid: &Vec<Vec<Square>>,
    drill: bool,
    start: (usize, usize),
    actions: &Vec<Action>,
) -> Vec<(usize, usize)> {
    let mut at = start;
    let mut visited = Vec::new();
    for action in actions {
        let dir = match action {
            Action::Move(dir) => *dir,
            other => panic!("a route holds {:?}", other),
        };
        assert!(dir < 4);
        at = apply_move(at, dir);
        assert!(can_enter(grid, drill, at.0, at.1));
        if !drill {
            assert_ne!(grid[at.1][at.0], Square::Block);
        }
        visited.push(at);
    }
    visited
}

#[test]
fn open_grid_routes_are_manhattan_long() {
    let grid = open_grid(5, 5);
    let mut engine = BFS::new(5, 5);
    for sx in 0..5 {
        for sy in 0..5 {
            let state = PlayerState::new(sx, sy);
            for tx in 0..5 {
                for ty in 0..5 {
                    let route = engine.search_fewest_actions_to_move(&grid, &state, tx, ty);
                    let route = route.expect("every cell of an open grid is reachable");
                    assert_eq!(route.len(), distance((sx, sy), (tx, ty)));
                    let visited = replay(&grid, false, (sx, sy), &route);
                    assert_eq!(visited.last().copied().unwrap_or((sx, sy)), (tx, ty));
                }
            }
        }
    }
}

#[test]
fn open_grid_route_has_exact_moves_along_a_line() {
    let grid = open_grid(1, 4);
    let mut engine = BFS::new(1, 4);
    let to_the_right = engine.search_fewest_actions_to_move(&grid, &PlayerState::new(0, 0), 3, 0);
    assert_eq!(to_the_right, Some(vec![Action::Move(0), Action::Move(0), Action::Move(0)]));
    let to_the_left = engine.search_fewest_actions_to_move(&grid, &PlayerState::new(3, 0), 1, 0);
    assert_eq!(to_the_left, Some(vec![Action::Move(2), Action::Move(2)]));

    let column = open_grid(4, 1);
    let mut engine = BFS::new(4, 1);
    let at_the_top = PlayerState::new(0, 0);
    let down_the_rows = engine.search_fewest_actions_to_move(&column, &at_the_top, 0, 2);
    assert_eq!(down_the_rows, Some(vec![Action::Move(3), Action::Move(3)]));
    let up_the_rows = engine.search_fewest_actions_to_move(&column, &PlayerState::new(0, 3), 0, 0);
    assert_eq!(up_the_rows, Some(vec![Action::Move(1), Action::Move(1), Action::Move(1)]));
}

#[test]
fn repeated_query_gives_the_same_length() {
    let grid = wall_with_gap();
    let state = PlayerState::new(0, 0);
    let mut engine = BFS::new(5, 5);
    let first = engine.search_fewest_actions_to_move(&grid, &state, 4, 0);
    let second = engine.search_fewest_actions_to_move(&grid, &state, 4, 0);
    assert_eq!(first.as_ref().map(|route| route.len()), second.as_ref().map(|route| route.len()));
    assert_eq!(first, second);
    let mut other_engine = BFS::new(5, 5);
    let third = other_engine.search_fewest_actions_to_move(&grid, &state, 4, 0);
    assert_eq!(first.map(|route| route.len()), third.map(|route| route.len()));
}

#[test]
fn queries_in_turn_do_not_disturb_each_other() {
    let grid = wall_with_gap();
    let state = PlayerState::new(0, 0);
    let mut engine = BFS::new(5, 5);
    let first = engine.search_fewest_actions_to_move(&grid, &state, 1, 1);
    let between = engine.search_fewest_actions_to_move(&grid, &state, 3, 3);
    let again = engine.search_fewest_actions_to_move(&grid, &state, 1, 1);
    assert_eq!(first.as_ref().map(|route| route.len()), Some(2));
    assert_eq!(between.map(|route| route.len()), Some(8));
    assert_eq!(first, again);
}

#[test]
fn replaying_the_route_reaches_the_target_over_open_cells() {
    let mut grid = open_grid(6, 7);
    let blocks =
        [(1, 0), (1, 1), (1, 2), (3, 5), (3, 4), (3, 3), (3, 2), (5, 1), (5, 2), (5, 3), (4, 3)];
    for (x, y) in blocks {
        grid[y][x] = Square::Block;
    }
    grid[0][2] = Square::Filled;
    let mut engine = BFS::new(6, 7);
    let state = PlayerState::new(0, 0);
    for ty in 0..6 {
        for tx in 0..7 {
            let found = engine.search_fewest_actions_to_move(&grid, &state, tx, ty);
            if grid[ty][tx] == Square::Block {
                assert_eq!(found, None);
            } else {
                let route = found.expect("the open cells of this board are connected");
                let visited = replay(&grid, false, (0, 0), &route);
                assert_eq!(visited.last().copied().unwrap_or((0, 0)), (tx, ty));
                assert!(route.len() >= distance((0, 0), (tx, ty)));
            }
        }
    }
    let far = engine.search_fewest_actions_to_move(&grid, &state, 6, 0);
    assert_eq!(far.map(|route| route.len()), Some(12));
}

#[test]
fn target_on_the_start_gives_the_empty_route() {
    let grid = wall_with_gap();
    let mut engine = BFS::new(5, 5);
    for (x, y) in [(0, 0), (4, 4), (3, 1), (2, 4)] {
        let found = engine.search_fewest_actions_to_move(&grid, &PlayerState::new(x, y), x, y);
        assert_eq!(found, Some(Vec::new()));
    }
    let on_a_block = engine.search_fewest_actions_to_move(&grid, &PlayerState::new(2, 1), 2, 1);
    assert_eq!(on_a_block, Some(Vec::new()));
}

#[test]
fn walled_in_target_is_unreachable() {
    let mut grid = open_grid(5, 5);
    for (x, y) in [(2, 1), (1, 2), (3, 2), (2, 3)] {
        grid[y][x] = Square::Block;
    }
    let mut engine = BFS::new(5, 5);
    let found = engine.search_fewest_actions_to_move(&grid, &PlayerState::new(0, 0), 2, 2);
    assert_eq!(found, None);
    let corner = {
        let mut grid = open_grid(3, 3);
        grid[0][1] = Square::Block;
        grid[1][0] = Square::Block;
        grid
    };
    let mut small = BFS::new(3, 3);
    assert_eq!(small.search_fewest_actions_to_move(&corner, &PlayerState::new(2, 2), 0, 0), None);
}

#[test]
fn unreachable_differs_from_the_empty_route() {
    let mut grid = open_grid(1, 3);
    grid[0][1] = Square::Block;
    let mut engine = BFS::new(1, 3);
    let state = PlayerState::new(0, 0);
    assert_eq!(engine.search_fewest_actions_to_move(&grid, &state, 2, 0), None);
    assert_eq!(engine.search_fewest_actions_to_move(&grid, &state, 0, 0), Some(Vec::new()));
}

#[test]
fn block_target_is_unreachable_without_a_drill() {
    let grid = wall_with_gap();
    let mut engine = BFS::new(5, 5);
    let found = engine.search_fewest_actions_to_move(&grid, &PlayerState::new(0, 0), 2, 0);
    assert_eq!(found, None);
}

#[test]
fn wall_with_gap_is_walked_around() {
    let grid = wall_with_gap();
    let mut engine = BFS::new(5, 5);
    let state = PlayerState::new(0, 0);
    let route = engine.search_fewest_actions_to_move(&grid, &state, 4, 0);
    let route = route.expect("the gap in row 4 joins the two sides");
    assert_eq!(route.len(), 12);
    let visited = replay(&grid, false, (0, 0), &route);
    assert_eq!(visited.last(), Some(&(4, 0)));
    assert!(visited.contains(&(2, 4)));
    assert!(visited.iter().all(|cell| cell.0 != 2 || cell.1 == 4));
    assert_eq!(actions_to_string(&route), "DWWWWDDDSSSS");
}

#[test]
fn first_of_the_shortest_routes_is_chosen() {
    let grid = open_grid(3, 3);
    let mut engine = BFS::new(3, 3);
    let down_right = engine.search_fewest_actions_to_move(&grid, &PlayerState::new(0, 0), 2, 2);
    assert_eq!(down_right.map(|route| actions_to_string(&route)), Some(String::from("DDWW")));
    let up_left = engine.search_fewest_actions_to_move(&grid, &PlayerState::new(2, 2), 0, 0);
    assert_eq!(up_left.map(|route| actions_to_string(&route)), Some(String::from("SSAA")));
    let up_right = engine.search_fewest_actions_to_move(&grid, &PlayerState::new(0, 2), 2, 0);
    assert_eq!(up_right.map(|route| actions_to_string(&route)), Some(String::from("DDSS")));
    let down_left = engine.search_fewest_actions_to_move(&grid, &PlayerState::new(2, 0), 0, 2);
    assert_eq!(down_left.map(|route| actions_to_string(&route)), Some(String::from("AAWW")));
    let mut blocked = open_grid(3, 3);
    blocked[0][1] = Square::Block;
    let around = engine.search_fewest_actions_to_move(&blocked, &PlayerState::new(0, 0), 2, 2);
    assert_eq!(around.map(|route| actions_to_string(&route)), Some(String::from("WDDW")));
}

#[test]
fn drill_in_effect_opens_the_wall() {
    let grid = wall_with_gap();
    let mut engine = BFS::new(5, 5);
    let mut state = PlayerState::new(0, 0);
    state.activate(Booster::Drill, 30);
    let route = engine.search_fewest_actions_to_move(&grid, &state, 4, 0);
    assert_eq!(route, Some(vec![Action::Move(0); 4]));
    let into_the_wall = engine.search_fewest_actions_to_move(&grid, &state, 2, 2);
    assert_eq!(into_the_wall.map(|route| route.len()), Some(4));
}

#[test]
fn drill_that_ran_out_or_lies_unused_opens_nothing() {
    let grid = wall_with_gap();
    let mut engine = BFS::new(5, 5);
    let mut state = PlayerState::new(0, 0);
    state.collect(Booster::Drill);
    state.activate(Booster::Drill, 0);
    state.activate(Booster::Fast, 10);
    let route = engine.search_fewest_actions_to_move(&grid, &state, 4, 0);
    assert_eq!(route.map(|route| route.len()), Some(12));
}

#[test]
fn filled_cells_are_walked_like_empty_ones() {
    let mut grid = open_grid(3, 3);
    for row in grid.iter_mut() {
        for cell in row.iter_mut() {
            *cell = Square::Filled;
        }
    }
    let mut engine = BFS::new(3, 3);
    let found = engine.search_fewest_actions_to_move(&grid, &PlayerState::new(0, 0), 2, 2);
    assert_eq!(found.map(|route| route.len()), Some(4));
}

#[test]
fn robot_on_a_block_can_still_leave_it() {
    let mut grid = open_grid(3, 3);
    grid[1][1] = Square::Block;
    let mut engine = BFS::new(3, 3);
    let found = engine.search_fewest_actions_to_move(&grid, &PlayerState::new(1, 1), 1, 0);
    assert_eq!(found, Some(vec![Action::Move(1)]));
}

#[test]
fn columns_and_rows_are_not_mixed_up() {
    let mut grid = open_grid(2, 6);
    grid[0][4] = Square::Block;
    let mut engine = BFS::new(2, 6);
    let state = PlayerState::new(0, 0);
    let along = engine.search_fewest_actions_to_move(&grid, &state, 5, 0);
    assert_eq!(along.map(|route| route.len()), Some(7));
    let below = engine.search_fewest_actions_to_move(&grid, &state, 5, 1);
    assert_eq!(below.map(|route| route.len()), Some(6));
    assert_eq!(engine.search_fewest_actions_to_move(&grid, &state, 4, 0), None);
}

#[test]
fn single_cell_board() {
    let grid = open_grid(1, 1);
    let mut engine = BFS::new(1, 1);
    let found = engine.search_fewest_actions_to_move(&grid, &PlayerState::new(0, 0), 0, 0);
    assert_eq!(found, Some(Vec::new()));
}

#[test]
fn change_of_the_grid_between_queries_is_seen() {
    let mut grid = open_grid(3, 3);
    let mut engine = BFS::new(3, 3);
    let state = PlayerState::new(0, 1);
    let before = engine.search_fewest_actions_to_move(&grid, &state, 2, 1);
    assert_eq!(before, Some(vec![Action::Move(0), Action::Move(0)]));
    grid[1][1] = Square::Block;
    let after = engine.search_fewest_actions_to_move(&grid, &state, 2, 1);
    assert_eq!(after.map(|route| route.len()), Some(4));
    grid[0][1] = Square::Block;
    grid[2][1] = Square::Block;
    assert_eq!(engine.search_fewest_actions_to_move(&grid, &state, 2, 1), None);
}

#[test]
fn can_enter_checks_bounds_and_blocks() {
    let grid = wall_with_gap();
    assert!(can_enter(&grid, false, 0, 0));
    assert!(can_enter(&grid, false, 2, 4));
    assert!(!can_enter(&grid, false, 2, 0));
    assert!(can_enter(&grid, true, 2, 0));
    assert!(!can_enter(&grid, true, 5, 0));
    assert!(!can_enter(&grid, true, 0, 5));
}

#[test]
fn engine_fits_only_boards_of_its_size() {
    let engine = BFS::new(2, 3);
    assert!(engine.fits(&open_grid(2, 3)));
    assert!(!engine.fits(&open_grid(3, 2)));
    assert!(!engine.fits(&open_grid(2, 4)));
    assert!(!engine.fits(&open_grid(1, 3)));
    let mut ragged = open_grid(2, 3);
    ragged[1].pop();
    assert!(!engine.fits(&ragged));
    assert!(BFS::new(0, 0).fits(&Vec::new()));
}

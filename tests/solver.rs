use maze_solver::board::{Board, RawBoard, Status, DIMENSION};
use maze_solver::solver::{heuristic, record, solver, successors_to_push, Step};

fn grid_with_token(row: usize, col: usize) -> RawBoard {
    let mut raw: RawBoard = [[Status::Empty; DIMENSION]; DIMENSION];
    raw[row][col] = Status::Player;
    raw
}

#[test]
fn open_grid_from_top_left_takes_eight_moves() {
    let path = solver(&grid_with_token(0, 0)).expect("a path");
    assert_eq!(path.len() - 1, 8);
    assert_eq!(path[0].player_point.row, 0);
    assert_eq!(path[0].player_point.col, 0);
    assert!(path[8].is_goal());
    for (i, b) in path.iter().enumerate() {
        assert_eq!(b.player_point.row + b.player_point.col, i);
    }
}

#[test]
fn token_already_in_corner_takes_no_moves() {
    let path = solver(&grid_with_token(4, 4)).expect("a path");
    assert_eq!(path.len(), 1);
    assert!(path[0].is_goal());
    assert_eq!(path[0].to_str().lines().count(), DIMENSION);
}

#[test]
fn enclosed_token_has_no_path() {
    let mut raw = grid_with_token(0, 0);
    raw[0][1] = Status::Wall;
    raw[1][0] = Status::Wall;
    assert!(Board::new(&raw).next_boards().is_empty());
    assert!(solver(&raw).is_none());
}

#[test]
fn grid_without_token_has_no_path() {
    let raw: RawBoard = [[Status::Empty; DIMENSION]; DIMENSION];
    let b = Board::new(&raw);
    assert!(!b.is_valid());
    assert!(b.next_boards().is_empty());
    assert!(solver(&raw).is_none());
}

#[test]
fn walled_corner_has_no_path() {
    let mut raw = grid_with_token(0, 0);
    raw[3][4] = Status::Wall;
    raw[4][3] = Status::Wall;
    assert!(solver(&raw).is_none());
}

#[test]
fn heuristic_adds_level_and_distance() {
    let b = Board::new(&grid_with_token(1, 2));
    assert_eq!(heuristic(&b, 3), 3 + 3 + 2);
    assert_eq!(heuristic(&Board::new(&grid_with_token(4, 4)), 0), 0);
    let s = Step::new(&b, 3, heuristic);
    assert_eq!(s.cost, 8);
    assert_eq!(s.level, 3);
}

#[test]
fn successors_skip_visited_boards() {
    let b = Board::new(&grid_with_token(2, 2));
    let current = Step::new(&b, 0, heuristic);
    let up = b.next_boards()[0].duplicate();
    let visited = vec![b.duplicate(), up];
    let next = successors_to_push(&current, &visited, None);
    let points: Vec<(usize, usize)> =
        next.iter().map(|s| (s.board.player_point.row, s.board.player_point.col)).collect();
    assert_eq!(points, vec![(2, 1), (3, 2), (2, 3)]);
    assert!(next.iter().all(|s| s.level == 1 && s.cost == 1 + s.board.player_point.row.abs_diff(4) + s.board.player_point.col.abs_diff(4)));
}

#[test]
fn successors_respect_the_cost_bound() {
    let b = Board::new(&grid_with_token(2, 2));
    let current = Step::new(&b, 0, heuristic);
    let visited = vec![b.duplicate()];
    let next = successors_to_push(&current, &visited, Some(4));
    let points: Vec<(usize, usize)> =
        next.iter().map(|s| (s.board.player_point.row, s.board.player_point.col)).collect();
    assert_eq!(points, vec![(3, 2), (2, 3)]);
    assert!(successors_to_push(&current, &visited, Some(3)).is_empty());
}

#[test]
fn record_appends_or_overwrites_by_level() {
    let mut steps: Vec<Step> = Vec::new();
    record(&mut steps, Step::new(&Board::new(&grid_with_token(0, 0)), 0, heuristic));
    record(&mut steps, Step::new(&Board::new(&grid_with_token(0, 1)), 1, heuristic));
    record(&mut steps, Step::new(&Board::new(&grid_with_token(1, 0)), 1, heuristic));
    assert_eq!(steps.len(), 2);
    assert_eq!(steps[1].board.player_point.row, 1);
    record(&mut steps, Step::new(&Board::new(&grid_with_token(2, 2)), 7, heuristic));
    assert_eq!(steps.len(), 3);
    assert_eq!(steps[2].level, 7);
}

#[test]
fn steps_equal_when_boards_equal() {
    let a = Step::new(&Board::new(&grid_with_token(1, 1)), 0, heuristic);
    let b = Step::new(&Board::new(&grid_with_token(1, 1)), 4, heuristic);
    let c = Step::new(&Board::new(&grid_with_token(1, 2)), 0, heuristic);
    assert!(a == b);
    assert!(a != c);
}

#[test]
fn steps_order_as_their_boards() {
    let a = Step::new(&Board::new(&grid_with_token(2, 2)), 9, heuristic);
    let b = Step::new(&Board::new(&grid_with_token(0, 1)), 0, heuristic);
    assert!(a < b);
    assert_eq!(a.partial_cmp(&Step::new(&Board::new(&grid_with_token(1, 3)), 2, heuristic)), Some(std::cmp::Ordering::Equal));
}

#[test]
fn path_keeps_walls_of_the_start() {
    let mut raw = grid_with_token(0, 0);
    raw[1][1] = Status::Wall;
    raw[2][3] = Status::Wall;
    let start = Board::new(&raw);
    let path = solver(&raw).expect("a path");
    assert!(path.last().unwrap().is_goal());
    for b in &path {
        for k in 0..DIMENSION * DIMENSION {
            assert_eq!(b.data[k] == Status::Wall, start.data[k] == Status::Wall);
        }
        assert_eq!(b.data.iter().filter(|c| **c == Status::Player).count(), 1);
    }
}

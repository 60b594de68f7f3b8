use maze_solver::board::{Board, PlayerPoint, RawBoard, Status, DIMENSION};
use std::str::FromStr;

fn empty_grid() -> RawBoard {
    [[Status::Empty; DIMENSION]; DIMENSION]
}

fn grid_with_token(row: usize, col: usize) -> RawBoard {
    let mut raw = empty_grid();
    raw[row][col] = Status::Player;
    raw
}

fn point(b: &Board) -> (usize, usize) {
    (b.player_point.row, b.player_point.col)
}

#[test]
fn new_finds_the_token() {
    let b = Board::new(&grid_with_token(2, 3));
    assert!(b.is_valid());
    assert_eq!(point(&b), (2, 3));
    assert_eq!(b.data.len(), DIMENSION * DIMENSION);
    assert_eq!(b.data[2 * DIMENSION + 3], Status::Player);
}

#[test]
fn new_without_token_is_invalid() {
    let b = Board::new(&empty_grid());
    assert!(!b.is_valid());
    assert_eq!(b.player_point, PlayerPoint { row: usize::MAX, col: usize::MAX });
    assert!(b.next_boards().is_empty());
}

#[test]
fn goal_only_in_bottom_right_corner() {
    assert!(Board::new(&grid_with_token(4, 4)).is_goal());
    assert!(!Board::new(&grid_with_token(4, 3)).is_goal());
    assert!(!Board::new(&grid_with_token(3, 4)).is_goal());
    assert!(!Board::new(&grid_with_token(0, 0)).is_goal());
}

#[test]
fn next_boards_in_order_up_left_down_right() {
    let b = Board::new(&grid_with_token(2, 2));
    let next = b.next_boards();
    let points: Vec<(usize, usize)> = next.iter().map(point).collect();
    assert_eq!(points, vec![(1, 2), (2, 1), (3, 2), (2, 3)]);
}

#[test]
fn next_boards_skip_walls_and_edges() {
    let mut raw = grid_with_token(0, 0);
    raw[1][0] = Status::Wall;
    let next = Board::new(&raw).next_boards();
    assert_eq!(next.len(), 1);
    assert_eq!(point(&next[0]), (0, 1));
}

#[test]
fn enclosed_token_has_no_moves() {
    let mut raw = grid_with_token(0, 0);
    raw[0][1] = Status::Wall;
    raw[1][0] = Status::Wall;
    assert!(Board::new(&raw).next_boards().is_empty());
}

#[test]
fn successor_swaps_token_with_neighbour_and_keeps_walls() {
    let mut raw = grid_with_token(1, 1);
    raw[0][1] = Status::Wall;
    raw[3][3] = Status::Wall;
    let b = Board::new(&raw);
    let next = b.next_boards();
    assert_eq!(next.len(), 3);
    for s in &next {
        let tokens = s.data.iter().filter(|c| **c == Status::Player).count();
        assert_eq!(tokens, 1);
        let moved = s.player_point.row * DIMENSION + s.player_point.col;
        assert_eq!(s.data[moved], Status::Player);
        assert_eq!(s.data[DIMENSION + 1], Status::Empty);
        for k in 0..DIMENSION * DIMENSION {
            assert_eq!(s.data[k] == Status::Wall, b.data[k] == Status::Wall);
            if k != moved && k != DIMENSION + 1 {
                assert_eq!(s.data[k], b.data[k]);
            }
        }
    }
}

#[test]
fn move_then_back_restores_board() {
    let b = Board::new(&grid_with_token(2, 2));
    let right = b.next_boards()[3].duplicate();
    assert_eq!(point(&right), (2, 3));
    let back = right.next_boards()[1].duplicate();
    assert_eq!(point(&back), (2, 2));
    assert!(back == b);
    assert!(right != b);
}

#[test]
fn to_str_renders_legend() {
    let mut raw = grid_with_token(0, 0);
    raw[0][1] = Status::Wall;
    let text = Board::new(&raw).to_str();
    let expected = " O  X  _  _  _ \n".to_string() + &" _  _  _  _  _ \n".repeat(4);
    assert_eq!(text, expected);
}

#[test]
fn parse_cell_text() {
    assert_eq!(Status::parse("0"), Some(Status::Empty));
    assert_eq!(Status::parse("1"), Some(Status::Wall));
    assert_eq!(Status::parse("2"), Some(Status::Player));
    assert_eq!(Status::parse("3"), None);
    assert_eq!(Status::parse("22"), None);
    assert_eq!(Status::parse(""), None);
    assert_eq!(Status::from_str("1"), Ok(Status::Wall));
    assert_eq!(Status::from_str("x"), Err(()));
}

#[test]
fn board_nearer_corner_orders_first() {
    let near = Board::new(&grid_with_token(3, 4));
    let far = Board::new(&grid_with_token(0, 1));
    let same = Board::new(&grid_with_token(4, 3));
    assert!(near < far);
    assert!(far > near);
    assert_eq!(near.partial_cmp(&same), Some(std::cmp::Ordering::Equal));
    assert!(near != same);
}

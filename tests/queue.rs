use maze_solver::board::{Board, RawBoard, Status, DIMENSION};
use maze_solver::min_priority_queue::MinPriorityQueue;
use maze_solver::solver::{heuristic, Step};

fn board_at(row: usize, col: usize) -> Board {
    let mut raw: RawBoard = [[Status::Empty; DIMENSION]; DIMENSION];
    raw[row][col] = Status::Player;
    Board::new(&raw)
}

fn step_at(row: usize, col: usize, level: usize) -> Step {
    Step::new(&board_at(row, col), level, heuristic)
}

fn sum(s: &Step) -> usize {
    s.board.player_point.row + s.board.player_point.col
}

#[test]
fn empty_queue() {
    let mut q = MinPriorityQueue::<Step>::new();
    assert!(q.is_empty());
    assert!(q.peek().is_none());
    assert!(q.pop().is_none());
    assert!(q.get_data().is_empty());
}

#[test]
fn pops_nearest_to_corner_first() {
    let mut q = MinPriorityQueue::<Step>::new();
    q.push(step_at(0, 0, 0));
    q.push(step_at(3, 4, 0));
    q.push(step_at(1, 1, 0));
    q.push(step_at(2, 4, 0));
    assert_eq!(sum(q.peek().unwrap()), 7);
    let mut out = Vec::new();
    while let Some(s) = q.pop() {
        out.push(sum(&s));
    }
    assert_eq!(out, vec![7, 6, 2, 0]);
}

#[test]
fn ties_leave_in_arrival_order() {
    let mut q = MinPriorityQueue::<Step>::new();
    q.push(step_at(0, 2, 1));
    q.push(step_at(4, 4, 9));
    q.push(step_at(1, 1, 2));
    q.push(step_at(2, 0, 3));
    q.push(step_at(0, 2, 4));
    let mut out = Vec::new();
    while let Some(s) = q.pop() {
        out.push(s.level);
    }
    assert_eq!(out, vec![9, 1, 2, 3, 4]);
}

#[test]
fn stored_order_is_heap_order() {
    let mut q = MinPriorityQueue::<Step>::new();
    let cells = [(0, 0), (4, 4), (2, 1), (1, 0), (3, 3), (0, 4), (2, 2), (1, 1)];
    for (r, c) in cells {
        q.push(step_at(r, c, 0));
    }
    q.pop();
    q.push(step_at(0, 1, 0));
    let data = q.get_data();
    for i in 0..data.len() {
        for child in [2 * i + 1, 2 * i + 2] {
            if child < data.len() {
                assert!(sum(&data[i]) >= sum(&data[child]));
            }
        }
    }
}

#[test]
fn peek_keeps_the_item() {
    let mut q = MinPriorityQueue::<Step>::new();
    q.push(step_at(1, 2, 5));
    assert_eq!(q.peek().unwrap().level, 5);
    assert!(!q.is_empty());
    assert_eq!(q.pop().unwrap().level, 5);
    assert!(q.is_empty());
}

#[test]
fn contains_compares_boards() {
    let mut q = MinPriorityQueue::<Step>::new();
    q.push(step_at(1, 2, 5));
    assert!(q.contains(&step_at(1, 2, 0)));
    assert!(!q.contains(&step_at(2, 1, 5)));
}

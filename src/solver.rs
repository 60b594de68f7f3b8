use vstd::prelude::*;
use std::cmp::Ordering;

use crate::board::{
    can_step, cell_count, delta, flatten, index_of, lemma_moves_allowed,
    at_most_one_player, progress, same_walls, step_cells, token_at, Board, RawBoard, Status, DIMENSION,
};
use crate::min_priority_queue::{MinPriorityQueue, Prioritized};

verus! {

/// One entry of the search frontier: a board, how many moves led to it, and
/// the estimated length of a path through it.
pub struct Step {
    pub level: usize,
    pub cost: usize,
    pub board: Board,
}

/// Moves made so far plus the distance left to the bottom-right corner.
pub open spec fn estimate(row: int, col: int, level: int) -> int {
    level + (DIMENSION - 1 - row) + (DIMENSION - 1 - col)
}

/// The estimated length of a path through `board` reached in `level` moves.
pub fn heuristic(board: &Board, level: usize) -> (r: usize)
    requires
        board.wf(),
        board.valid(),
        level + 2 * (DIMENSION - 1) <= usize::MAX,
    ensures
        r == estimate(board.row(), board.col(), level as int),
{
    let row_dis = DIMENSION - board.player_point.row - 1;
    let col_dis = DIMENSION - board.player_point.col - 1;
    level + row_dis + col_dis
}

impl Step {
    /// The frontier entry for `board` reached in `level` moves, its cost
    /// given by `heuristic`.
    pub fn new<F: Fn(&Board, usize) -> usize>(board: &Board, level: usize, heuristic: F) -> (r: Step)
        requires
            call_requires(heuristic, (board, level)),
        ensures
            r.level == level,
            call_ensures(heuristic, (board, level), r.cost),
            r.board.cells() == board.cells(),
            r.board.player_point == board.player_point,
    {
        Step { level, cost: heuristic(board, level), board: board.duplicate() }
    }

    /// A copy of this entry.
    pub fn duplicate(&self) -> (r: Step)
        ensures
            r.level == self.level,
            r.cost == self.cost,
            r.board.cells() == self.board.cells(),
            r.board.player_point == self.board.player_point,
    {
        Step { level: self.level, cost: self.cost, board: self.board.duplicate() }
    }
}

impl Prioritized for Step {
    /// The nearer the token is to the far corner, the sooner the entry is served;
    /// level and cost play no part.
    open spec fn priority(&self) -> int {
        -(self.board.row() + self.board.col())
    }

    fn precedes(&self, other: &Step) -> (r: bool) {
        self < other
    }
}

impl PartialEq for Step {
    /// Two entries are equal when their boards are.
    fn eq(&self, other: &Step) -> (r: bool) {
        self.board == other.board
    }
}

impl vstd::std_specs::cmp::PartialEqSpecImpl for Step {
    open spec fn obeys_eq_spec() -> bool {
        true
    }

    open spec fn eq_spec(&self, other: &Step) -> bool {
        self.board.cells() == other.board.cells()
    }
}

impl PartialOrd for Step {
    /// Entries compare as their boards do.
    fn partial_cmp(&self, other: &Step) -> (r: Option<Ordering>) {
        self.board.partial_cmp(&other.board)
    }
}

impl vstd::std_specs::cmp::PartialOrdSpecImpl for Step {
    open spec fn obeys_partial_cmp_spec() -> bool {
        true
    }

    open spec fn partial_cmp_spec(&self, other: &Step) -> Option<Ordering> {
        if progress(&other.board) < progress(&self.board) {
            Some(Ordering::Less)
        } else if progress(&other.board) == progress(&self.board) {
            Some(Ordering::Equal)
        } else {
            Some(Ordering::Greater)
        }
    }
}

/// Some board of `visited` has the grid `cells`.
pub open spec fn seen(visited: Seq<Board>, cells: Seq<Status>) -> bool {
    exists|i: int| 0 <= i < visited.len() && (#[trigger] visited[i]).cells() == cells
}

/// Whether a board equal to `board` is in `visited`.
pub fn is_seen(visited: &Vec<Board>, board: &Board) -> (r: bool)
    ensures
        r == seen(visited@, board.cells()),
{
    let mut i: usize = 0;
    while i < visited.len()
        invariant
            i <= visited@.len(),
            forall|k: int| 0 <= k < i ==> (#[trigger] visited@[k]).cells() != board.cells(),
        decreases visited@.len() - i,
    {
        if visited[i] == *board {
            return true;
        }
        i = i + 1;
    }
    false
}

/// The successor of `b` in direction `d` is pushed: its grid has not been
/// seen and, under a bound, its estimate does not exceed the bound.
pub open spec fn admits(b: Board, d: int, level: int, visited: Seq<Board>, bound: Option<usize>) -> bool {
    &&& !seen(visited, step_cells(b.cells(), b.row(), b.col(), d))
    &&& match bound {
        None => true,
        Some(m) => estimate(b.row() + delta(d).0, b.col() + delta(d).1, level + 1) <= m,
    }
}

/// The directions, among the first `n` moves of `b`, whose successors are pushed.
pub open spec fn admitted_upto(b: Board, level: int, visited: Seq<Board>, bound: Option<usize>, n: int) -> Seq<int>
    decreases n,
{
    if n <= 0 {
        seq![]
    } else if admits(b, b.moves()[n - 1], level, visited, bound) {
        admitted_upto(b, level, visited, bound, n - 1).push(b.moves()[n - 1])
    } else {
        admitted_upto(b, level, visited, bound, n - 1)
    }
}

/// The directions whose successors are pushed, in the order up, left, down, right.
pub open spec fn admitted(b: Board, level: int, visited: Seq<Board>, bound: Option<usize>) -> Seq<int> {
    admitted_upto(b, level, visited, bound, b.moves().len() as int)
}

/// The entries that expanding `current` adds to the frontier: one per
/// successor whose grid is not in `visited` and, when there is a bound,
/// whose estimate is within it.
pub fn successors_to_push(current: &Step, visited: &Vec<Board>, bound: Option<usize>) -> (r: Vec<Step>)
    requires
        current.board.wf(),
        current.level + 1 + 2 * (DIMENSION - 1) <= usize::MAX,
    ensures
        r@.len() == admitted(current.board, current.level as int, visited@, bound).len(),
        forall|k: int|
            0 <= k < r@.len() ==> {
                let d = admitted(current.board, current.level as int, visited@, bound)[k];
                &&& current.board.is_move_of((#[trigger] r@[k]).board, d)
                &&& r@[k].level == current.level + 1
                &&& r@[k].cost == estimate(r@[k].board.row(), r@[k].board.col(), current.level + 1)
            },
        forall|k: int| 0 <= k < r@.len() ==> !seen(visited@, (#[trigger] r@[k]).board.cells()),
{
    let ghost b = current.board;
    let ghost lv = current.level as int;
    let nexts = current.board.next_boards();
    let mut out: Vec<Step> = Vec::new();
    let mut i: usize = 0;
    while i < nexts.len()
        invariant
            b == current.board,
            lv == current.level,
            b.wf(),
            current.level + 1 + 2 * (DIMENSION - 1) <= usize::MAX,
            nexts@.len() == b.moves().len(),
            forall|k: int| 0 <= k < nexts@.len() ==> b.is_move_of(#[trigger] nexts@[k], b.moves()[k]),
            i <= nexts@.len(),
            out@.len() == admitted_upto(b, lv, visited@, bound, i as int).len(),
            forall|k: int|
                0 <= k < out@.len() ==> {
                    let d = admitted_upto(b, lv, visited@, bound, i as int)[k];
                    &&& b.is_move_of((#[trigger] out@[k]).board, d)
                    &&& out@[k].level == lv + 1
                    &&& out@[k].cost == estimate(out@[k].board.row(), out@[k].board.col(), lv + 1)
                    &&& !seen(visited@, out@[k].board.cells())
                },
        decreases nexts@.len() - i,
    {
        let nb = &nexts[i];
        proof {
            lemma_moves_allowed(b, 4, i as int);
        }
        let level = current.level + 1;
        if !is_seen(visited, nb) {
            let next_cost = heuristic(nb, level);
            let within = match bound {
                None => true,
                Some(m) => next_cost <= m,
            };
            if within {
                out.push(Step::new(nb, level, heuristic));
            }
        }
        i = i + 1;
    }
    out
}

/// Keeps `step` as the one for its level: appended when the history is
/// shorter than its level, written over the entry at its level otherwise.
pub fn record(steps: &mut Vec<Step>, step: Step)
    ensures
        step.level >= old(steps)@.len() ==> final(steps)@ == old(steps)@.push(step),
        step.level < old(steps)@.len() ==> final(steps)@ == old(steps)@.update(
            step.level as int,
            step,
        ),
{
    let level = step.level;
    if level >= steps.len() {
        steps.push(step);
    } else {
        steps.set(level, step);
    }
}

/// Position of the token in the flattened grid.
pub open spec fn pos(b: Board) -> int {
    index_of(b.row(), b.col())
}

/// A board that can arise while searching from the grid `start`: well formed,
/// holding a token, with the walls of `start`.
pub open spec fn in_family(b: Board, start: Seq<Status>) -> bool {
    &&& b.wf()
    &&& b.valid()
    &&& same_walls(b.cells(), start)
}

/// Some board of `visited` has its token at `p`.
pub open spec fn seen_at(visited: Seq<Board>, p: int) -> bool {
    exists|i: int| 0 <= i < visited.len() && pos(#[trigger] visited[i]) == p
}

/// How many of the positions below `m` hold the token in some board of `visited`.
pub open spec fn count_seen(visited: Seq<Board>, m: int) -> int
    decreases m,
{
    if m <= 0 {
        0
    } else {
        count_seen(visited, m - 1) + if seen_at(visited, m - 1) {
            1int
        } else {
            0int
        }
    }
}

/// How many entries of `front` hold a board whose position was already explored.
pub open spec fn count_stale(front: Seq<Step>, visited: Seq<Board>) -> int
    decreases front.len(),
{
    if front.len() == 0 {
        0
    } else {
        (if seen_at(visited, pos(front[0].board)) {
            1int
        } else {
            0int
        })
            + count_stale(front.drop_first(), visited)
    }
}

proof fn lemma_count_seen_bounds(visited: Seq<Board>, m: int)
    requires
        m >= 0,
    ensures
        0 <= count_seen(visited, m) <= m,
    decreases m,
{
    if m > 0 {
        lemma_count_seen_bounds(visited, m - 1);
    }
}

proof fn lemma_count_seen_push(visited: Seq<Board>, b: Board, m: int)
    requires
        m >= 0,
    ensures
        seen_at(visited, pos(b)) ==> count_seen(visited.push(b), m) == count_seen(visited, m),
        !seen_at(visited, pos(b)) ==> count_seen(visited.push(b), m) == count_seen(visited, m) + if 0
            <= pos(b) < m {
            1int
        } else {
            0int
        },
    decreases m,
{
    lemma_seen_at_push(visited, b);
    if m > 0 {
        lemma_count_seen_push(visited, b, m - 1);
    }
}

proof fn lemma_seen_at_push(visited: Seq<Board>, b: Board)
    ensures
        forall|p: int| seen_at(visited.push(b), p) == (seen_at(visited, p) || p == pos(b)),
{
    let v2 = visited.push(b);
    assert forall|p: int| seen_at(v2, p) == (seen_at(visited, p) || p == pos(b)) by {
        if seen_at(visited, p) {
            let i = choose|i: int| 0 <= i < visited.len() && pos(#[trigger] visited[i]) == p;
            assert(v2[i] == visited[i]);
        }
        if p == pos(b) {
            assert(v2[visited.len() as int] == b);
        }
        if seen_at(v2, p) {
            let i = choose|i: int| 0 <= i < v2.len() && pos(#[trigger] v2[i]) == p;
            if i < visited.len() {
                assert(v2[i] == visited[i]);
            }
        }
    }
}

proof fn lemma_count_stale_nonneg(front: Seq<Step>, visited: Seq<Board>)
    ensures
        count_stale(front, visited) >= 0,
    decreases front.len(),
{
    if front.len() > 0 {
        lemma_count_stale_nonneg(front.drop_first(), visited);
    }
}

proof fn lemma_count_stale_same(front: Seq<Step>, v1: Seq<Board>, v2: Seq<Board>)
    requires
        forall|p: int| seen_at(v1, p) == seen_at(v2, p),
    ensures
        count_stale(front, v1) == count_stale(front, v2),
    decreases front.len(),
{
    if front.len() > 0 {
        lemma_count_stale_same(front.drop_first(), v1, v2);
    }
}

proof fn lemma_count_stale_insert(front: Seq<Step>, visited: Seq<Board>, j: int, x: Step)
    requires
        0 <= j <= front.len(),
        !seen_at(visited, pos(x.board)),
    ensures
        count_stale(front.insert(j, x), visited) == count_stale(front, visited),
    decreases front.len(),
{
    let t = front.insert(j, x);
    if j == 0 {
        assert(t.drop_first() =~= front);
    } else {
        assert(t.drop_first() =~= front.drop_first().insert(j - 1, x));
        lemma_count_stale_insert(front.drop_first(), visited, j - 1, x);
    }
}

/// In one family, two boards have the same grid exactly when their tokens
/// stand in the same place.
proof fn lemma_family_cells(a: Board, b: Board, start: Seq<Status>)
    requires
        in_family(a, start),
        in_family(b, start),
    ensures
        (a.cells() == b.cells()) == (pos(a) == pos(b)),
{
    if pos(a) == pos(b) {
        assert forall|k: int| 0 <= k < cell_count() implies a.cells()[k] == b.cells()[k] by {
            if k != pos(a) {
                assert(a.cells()[k] == Status::Wall <==> start[k] == Status::Wall);
            }
        }
        assert(a.cells() =~= b.cells());
    }
    if a.cells() == b.cells() {
        assert(b.cells()[pos(a)] == Status::Player);
    }
}

proof fn lemma_seen_family(visited: Seq<Board>, b: Board, start: Seq<Status>)
    requires
        forall|k: int| 0 <= k < visited.len() ==> in_family(#[trigger] visited[k], start),
        in_family(b, start),
    ensures
        seen(visited, b.cells()) == seen_at(visited, pos(b)),
{
    if seen(visited, b.cells()) {
        let i = choose|i: int| 0 <= i < visited.len() && (#[trigger] visited[i]).cells() == b.cells();
        lemma_family_cells(visited[i], b, start);
    }
    if seen_at(visited, pos(b)) {
        let i = choose|i: int| 0 <= i < visited.len() && pos(#[trigger] visited[i]) == pos(b);
        lemma_family_cells(visited[i], b, start);
    }
}

proof fn lemma_admitted_allowed(
    b: Board,
    level: int,
    visited: Seq<Board>,
    bound: Option<usize>,
    n: int,
    i: int,
)
    requires
        n <= b.moves().len(),
        0 <= i < admitted_upto(b, level, visited, bound, n).len(),
    ensures
        b.can_move(admitted_upto(b, level, visited, bound, n)[i]),
    decreases n,
{
    if n > 0 {
        if i < admitted_upto(b, level, visited, bound, n - 1).len() {
            lemma_admitted_allowed(b, level, visited, bound, n - 1, i);
        } else {
            lemma_moves_allowed(b, 4, n - 1);
        }
    }
}

/// A move keeps a board in its family.
proof fn lemma_move_in_family(b: Board, s: Board, d: int, start: Seq<Status>)
    requires
        in_family(b, start),
        b.can_move(d),
        b.is_move_of(s, d),
    ensures
        in_family(s, start),
{
    assert(s.valid());
    let i = pos(b);
    let j = pos(s);
    assert(b.cells()[j] != Status::Wall);
    assert forall|k: int| 0 <= k < s.cells().len() implies (#[trigger] s.cells()[k] == Status::Wall
        <==> start[k] == Status::Wall) by {
        assert(b.cells()[k] == Status::Wall <==> start[k] == Status::Wall);
    }
}

/// Moves needed between two cells when nothing is in the way.
pub open spec fn manhattan(r1: int, c1: int, r2: int, c2: int) -> int {
    (if r1 >= r2 {
        r1 - r2
    } else {
        r2 - r1
    }) + (if c1 >= c2 {
        c1 - c2
    } else {
        c2 - c1
    })
}

/// A board as the search sees it: grid, token row, token column.
pub type BoardModel = (Seq<Status>, int, int);

/// A frontier entry: level, cost and board.
pub type NodeModel = (int, int, BoardModel);

/// The search: frontier, visited boards, per-level history, and whether a
/// goal board was taken from the frontier.
pub type SearchModel = (Seq<NodeModel>, Seq<BoardModel>, Seq<NodeModel>, bool);

pub open spec fn board_model(b: Board) -> BoardModel {
    (b.cells(), b.row(), b.col())
}

pub open spec fn node_model(s: Step) -> NodeModel {
    (s.level as int, s.cost as int, board_model(s.board))
}

pub open spec fn nodes_model(q: Seq<Step>) -> Seq<NodeModel> {
    q.map_values(|s: Step| node_model(s))
}

pub open spec fn boards_model(v: Seq<Board>) -> Seq<BoardModel> {
    v.map_values(|b: Board| board_model(b))
}

/// The directions among the first `n` in which the token of `m` may move.
pub open spec fn dirs_upto(m: BoardModel, n: int) -> Seq<int>
    decreases n,
{
    if n <= 0 {
        seq![]
    } else if can_step(m.0, m.1, m.2, n - 1) {
        dirs_upto(m, n - 1).push(n - 1)
    } else {
        dirs_upto(m, n - 1)
    }
}

pub open spec fn seen_model(v: Seq<BoardModel>, cells: Seq<Status>) -> bool {
    exists|i: int| 0 <= i < v.len() && (#[trigger] v[i]).0 == cells
}

pub open spec fn admits_model(m: BoardModel, d: int, level: int, v: Seq<BoardModel>, bound: Option<int>) -> bool {
    &&& !seen_model(v, step_cells(m.0, m.1, m.2, d))
    &&& match bound {
        None => true,
        Some(c) => estimate(m.1 + delta(d).0, m.2 + delta(d).1, level + 1) <= c,
    }
}

pub open spec fn admitted_model(m: BoardModel, level: int, v: Seq<BoardModel>, bound: Option<int>, n: int) -> Seq<int>
    decreases n,
{
    if n <= 0 {
        seq![]
    } else if admits_model(m, dirs_upto(m, 4)[n - 1], level, v, bound) {
        admitted_model(m, level, v, bound, n - 1).push(dirs_upto(m, 4)[n - 1])
    } else {
        admitted_model(m, level, v, bound, n - 1)
    }
}

/// The entry for the board reached from `m` in direction `d`.
pub open spec fn child_model(m: BoardModel, d: int, level: int) -> NodeModel {
    let r = m.1 + delta(d).0;
    let c = m.2 + delta(d).1;
    (level + 1, estimate(r, c, level + 1), (step_cells(m.0, m.1, m.2, d), r, c))
}

/// The entries that expanding a board pushes, in direction order.
pub open spec fn children_model(m: BoardModel, level: int, v: Seq<BoardModel>, bound: Option<int>) -> Seq<NodeModel> {
    let ds = admitted_model(m, level, v, bound, dirs_upto(m, 4).len() as int);
    Seq::new(ds.len(), |k: int| child_model(m, ds[k], level))
}

pub open spec fn node_priority(x: NodeModel) -> int {
    -(x.2.1 + x.2.2)
}

pub open spec fn slot_model(q: Seq<NodeModel>, p: int) -> int
    decreases q.len(),
{
    if q.len() == 0 {
        0
    } else if node_priority(q.last()) <= p {
        q.len() as int
    } else {
        slot_model(q.drop_last(), p)
    }
}

pub open spec fn insert_model(q: Seq<NodeModel>, x: NodeModel) -> Seq<NodeModel> {
    q.insert(slot_model(q, node_priority(x)), x)
}

/// The frontier after pushing `xs`, in order.
pub open spec fn push_all(q: Seq<NodeModel>, xs: Seq<NodeModel>) -> Seq<NodeModel>
    decreases xs.len(),
{
    if xs.len() == 0 {
        q
    } else {
        push_all(insert_model(q, xs[0]), xs.drop_first())
    }
}

pub open spec fn record_model(h: Seq<NodeModel>, x: NodeModel) -> Seq<NodeModel> {
    if x.0 >= h.len() {
        h.push(x)
    } else {
        h.update(x.0, x)
    }
}

pub open spec fn is_goal_model(m: BoardModel) -> bool {
    m.1 == DIMENSION - 1 && m.2 == DIMENSION - 1
}

/// One round of the search: take the front entry and record it at its
/// level; stop on a goal board; otherwise mark the board visited and push
/// its admitted successors, bounded by the cost of the new front entry.
pub open spec fn search_step(s: SearchModel) -> SearchModel {
    if s.3 || s.0.len() == 0 {
        s
    } else {
        let x = s.0[0];
        let rest = s.0.drop_first();
        let h = record_model(s.2, x);
        if is_goal_model(x.2) {
            (rest, s.1, h, true)
        } else {
            let v = s.1.push(x.2);
            let bound = if rest.len() == 0 {
                None
            } else {
                Some(rest[0].1)
            };
            (push_all(rest, children_model(x.2, x.0, v, bound)), v, h, false)
        }
    }
}

/// The search after `f` rounds.
pub open spec fn run(s: SearchModel, f: nat) -> SearchModel
    decreases f,
{
    if f == 0 {
        s
    } else {
        search_step(run(s, (f - 1) as nat))
    }
}

/// The search stops once a goal board was taken or the frontier is empty.
pub open spec fn finished(s: SearchModel) -> bool {
    s.3 || s.0.len() == 0
}

/// The search from the grid `cells` with the token at `(row, col)`.
pub open spec fn start_model(cells: Seq<Status>, row: int, col: int) -> SearchModel {
    (seq![(0, estimate(row, col, 0), (cells, row, col))], seq![], seq![], false)
}

/// What the search reports: the recorded boards when the last of them is a
/// goal board, nothing otherwise.
pub open spec fn answer(s: SearchModel) -> Option<Seq<BoardModel>> {
    if s.2.len() > 0 && is_goal_model(s.2.last().2) {
        Some(s.2.map_values(|x: NodeModel| x.2))
    } else {
        None
    }
}

pub open spec fn path_model(r: Option<Vec<Board>>) -> Option<Seq<BoardModel>> {
    match r {
        None => None,
        Some(p) => Some(boards_model(p@)),
    }
}

pub open spec fn bound_model(bound: Option<usize>) -> Option<int> {
    match bound {
        None => None,
        Some(c) => Some(c as int),
    }
}

/// A board pushed by a round of the search is never equal to a visited one.
pub proof fn lemma_children_unseen(m: BoardModel, level: int, v: Seq<BoardModel>, bound: Option<int>)
    ensures
        forall|k: int|
            0 <= k < children_model(m, level, v, bound).len() ==> !seen_model(
                v,
                (#[trigger] children_model(m, level, v, bound)[k]).2.0,
            ),
{
    assert forall|k: int| 0 <= k < children_model(m, level, v, bound).len() implies !seen_model(
        v,
        (#[trigger] children_model(m, level, v, bound)[k]).2.0,
    ) by {
        lemma_admitted_model_admits(m, level, v, bound, dirs_upto(m, 4).len() as int, k);
    }
}

proof fn lemma_admitted_model_admits(m: BoardModel, level: int, v: Seq<BoardModel>, bound: Option<int>, n: int, k: int)
    requires
        0 <= k < admitted_model(m, level, v, bound, n).len(),
    ensures
        admits_model(m, admitted_model(m, level, v, bound, n)[k], level, v, bound),
    decreases n,
{
    if n > 0 && k < admitted_model(m, level, v, bound, n - 1).len() {
        lemma_admitted_model_admits(m, level, v, bound, n - 1, k);
    }
}

proof fn lemma_dirs(b: Board, n: int)
    requires
        b.valid(),
    ensures
        b.moves_upto(n) == dirs_upto(board_model(b), n),
    decreases n,
{
    if n > 0 {
        lemma_dirs(b, n - 1);
    }
}

proof fn lemma_seen_model(visited: Seq<Board>, cells: Seq<Status>)
    ensures
        seen(visited, cells) == seen_model(boards_model(visited), cells),
{
    let v = boards_model(visited);
    if seen(visited, cells) {
        let i = choose|i: int| 0 <= i < visited.len() && (#[trigger] visited[i]).cells() == cells;
        assert(v[i].0 == cells);
    }
    if seen_model(v, cells) {
        let i = choose|i: int| 0 <= i < v.len() && (#[trigger] v[i]).0 == cells;
        assert(visited[i].cells() == cells);
    }
}

proof fn lemma_admitted(b: Board, level: int, visited: Seq<Board>, bound: Option<usize>, n: int)
    requires
        b.valid(),
        n <= b.moves().len(),
    ensures
        admitted_upto(b, level, visited, bound, n) == admitted_model(
            board_model(b),
            level,
            boards_model(visited),
            bound_model(bound),
            n,
        ),
    decreases n,
{
    lemma_dirs(b, 4);
    if n > 0 {
        lemma_admitted(b, level, visited, bound, n - 1);
        lemma_seen_model(visited, step_cells(b.cells(), b.row(), b.col(), b.moves()[n - 1]));
    }
}

proof fn lemma_slot_model(q: Seq<Step>, p: int)
    ensures
        crate::min_priority_queue::slot(q, p) == slot_model(nodes_model(q), p),
    decreases q.len(),
{
    if q.len() > 0 {
        assert(nodes_model(q).drop_last() =~= nodes_model(q.drop_last()));
        lemma_slot_model(q.drop_last(), p);
    }
}

/// Searches from the grid `raw_board` for the bottom-right corner.
///
/// Returns the board last taken from the frontier at each depth, from the
/// start, when the deepest of them has the token in the corner; `None` when
/// the frontier ran out first, or the grid holds no token. The result is the
/// `answer` of `run`, once the modelled search has finished.
#[verifier::rlimit(60)]
pub fn solver(raw_board: &RawBoard) -> (r: Option<Vec<Board>>)
    requires
        at_most_one_player(flatten(*raw_board)),
    ensures
        (forall|k: int| 0 <= k < cell_count() ==> flatten(*raw_board)[k] != Status::Player)
            ==> r.is_none(),
        flatten(*raw_board)[cell_count() - 1] == Status::Player ==> r.is_some() && r.unwrap()@.len()
            == 1,
        r.is_some() ==> {
            let path = r.unwrap()@;
            &&& 1 <= path.len() <= cell_count() + 1
            &&& path[0].cells() == flatten(*raw_board)
            &&& path.last().row() == DIMENSION - 1
            &&& path.last().col() == DIMENSION - 1
            &&& forall|k: int|
                0 <= k < path.len() ==> in_family(#[trigger] path[k], flatten(*raw_board))
        },
        forall|row: int, col: int|
            #[trigger] token_at(flatten(*raw_board), row, col) && r.is_some() ==> r.unwrap()@.len() - 1
                >= (DIMENSION - 1 - row) + (DIMENSION - 1 - col),
        forall|row: int, col: int|
            #[trigger] token_at(flatten(*raw_board), row, col) ==> exists|f: nat|
                finished(#[trigger] run(start_model(flatten(*raw_board), row, col), f))
                    && path_model(r) == answer(run(start_model(flatten(*raw_board), row, col), f)),
{
    let init = Board::new(raw_board);
    if !init.is_valid() {
        return None;
    }
    let ghost c0 = init.cells();
    let ghost n = cell_count();
    let mut queue: MinPriorityQueue<Step> = MinPriorityQueue::new();
    let mut visited: Vec<Board> = Vec::new();
    let mut steps: Vec<Step> = Vec::new();
    let seed = Step::new(&init, 0, heuristic);
    proof {
        assert(same_walls(seed.board.cells(), c0));
    }
    queue.push(seed);
    let ghost s0 = start_model(c0, init.row(), init.col());
    let ghost mut it: nat = 0;
    proof {
        assert(queue@ =~= seq![seed]);
        lemma_count_seen_bounds(visited@, n);
        assert(nodes_model(queue@) =~= s0.0);
        assert(boards_model(visited@) =~= s0.1);
        assert(nodes_model(steps@) =~= s0.2);
    }
    while !queue.is_empty()
        invariant_except_break
            init.row() == DIMENSION - 1 && init.col() == DIMENSION - 1 ==> steps@.len() == 0,
            run(s0, it) == (nodes_model(queue@), boards_model(visited@), nodes_model(steps@), false),
        invariant
            n == cell_count(),
            queue.wf(),
            init.wf(),
            init.valid(),
            c0 == init.cells(),
            forall|k: int| 0 <= k < queue@.len() ==> in_family(#[trigger] queue@[k].board, c0),
            forall|k: int| 0 <= k < visited@.len() ==> in_family(#[trigger] visited@[k], c0),
            forall|k: int| 0 <= k < steps@.len() ==> in_family((#[trigger] steps@[k]).board, c0),
            forall|k: int|
                0 <= k < queue@.len() ==> (#[trigger] queue@[k]).level + (if seen_at(
                    visited@,
                    pos(queue@[k].board),
                ) {
                    1int
                } else {
                    0int
                }) <= count_seen(visited@, n),
            0 <= count_seen(visited@, n) <= n,
            forall|k: int|
                0 <= k < queue@.len() && (#[trigger] queue@[k]).level == 0 ==> queue@[k].board.cells()
                    == c0 && queue@[k].board.player_point == init.player_point,
            steps@.len() > 0 ==> steps@[0].board.cells() == c0 && steps@[0].board.player_point
                == init.player_point,
            steps@.len() > 0 || queue@.len() > 0,
            steps@.len() == 0 ==> queue@.len() == 1 && queue@[0].level == 0,
            forall|k: int| 0 <= k < steps@.len() ==> (#[trigger] steps@[k]).level == k,
            forall|k: int| 0 <= k < queue@.len() ==> (#[trigger] queue@[k]).level <= steps@.len(),
            forall|k: int| 0 <= k < queue@.len() ==> manhattan(init.row(), init.col(), (#[trigger] queue@[k]).board.row(), queue@[k].board.col()) <= queue@[k].level,
            forall|k: int| 0 <= k < steps@.len() ==> manhattan(init.row(), init.col(), (#[trigger] steps@[k]).board.row(), steps@[k].board.col()) <= steps@[k].level,
            steps@.len() <= n + 1,
            s0 == start_model(c0, init.row(), init.col()),
        ensures
            forall|k: int| 0 <= k < steps@.len() ==> (#[trigger] steps@[k]).level == k,
            forall|k: int| 0 <= k < steps@.len() ==> manhattan(init.row(), init.col(), (#[trigger] steps@[k]).board.row(), steps@[k].board.col()) <= steps@[k].level,
            exists|f: nat| finished(#[trigger] run(s0, f)) && run(s0, f).2 == nodes_model(steps@),
            steps@.len() > 0,
            steps@.len() <= n + 1,
            forall|k: int| 0 <= k < steps@.len() ==> in_family((#[trigger] steps@[k]).board, c0),
            steps@[0].board.cells() == c0,
            init.row() == DIMENSION - 1 && init.col() == DIMENSION - 1 ==> steps@.len() == 1
                && steps@[0].board.player_point == init.player_point,
        decreases n - count_seen(visited@, n), count_stale(queue@, visited@),
    {
        let ghost q0 = queue@;
        let ghost v0 = visited@;
        let step = queue.pop().unwrap();
        assert(step == q0[0]);
        let ghost q1 = queue@;
        let ghost st0 = steps@;
        let dup = step.duplicate();
        record(&mut steps, dup);
        let ghost st1 = steps@;
        proof {
            assert(node_model(dup) == node_model(step));
            assert(nodes_model(q1) =~= nodes_model(q0).drop_first());
            assert(nodes_model(st1) =~= record_model(nodes_model(st0), node_model(step)));
        }
        if step.board.is_goal() {
            proof {
                assert(run(s0, (it + 1) as nat) == search_step(run(s0, it)));
                assert(finished(run(s0, (it + 1) as nat)));
            }
            break;
        }
        let ghost d0 = count_seen(v0, n);
        visited.push(step.board.duplicate());
        let ghost v1 = visited@;
        proof {
            lemma_count_seen_push(v0, visited@[v0.len() as int], n);
            lemma_seen_at_push(v0, visited@[v0.len() as int]);
            assert(pos(visited@[v0.len() as int]) == pos(step.board));
            assert(in_family(visited@[v0.len() as int], c0));
            assert(forall|k: int| 0 <= k < q1.len() ==> #[trigger] q1[k] == q0[k + 1]);
            assert forall|k: int| 0 <= k < visited@.len() implies in_family(#[trigger] visited@[k], c0) by {
                if k < v0.len() {
                    assert(visited@[k] == v0[k]);
                }
            }
            if seen_at(v0, pos(step.board)) {
                lemma_count_stale_same(q1, v0, v1);
            }
            lemma_count_seen_bounds(v1, n);
        }
        let bound: Option<usize> = match queue.peek() {
            None => None,
            Some(min_step) => Some(min_step.cost),
        };
        let mut next = successors_to_push(&step, &visited, bound);
        let ghost bm = board_model(step.board);
        proof {
            assert(boards_model(v1) =~= boards_model(v0).push(bm));
            lemma_dirs(step.board, 4);
            lemma_admitted(step.board, step.level as int, v1, bound, step.board.moves().len() as int);
            assert(nodes_model(next@) =~= children_model(bm, step.level as int, boards_model(v1), bound_model(bound)));
        }
        let ghost target = push_all(nodes_model(q1), nodes_model(next@));
        proof {
            assert forall|k: int| 0 <= k < next@.len() implies {
                &&& in_family((#[trigger] next@[k]).board, c0)
                &&& !seen_at(v1, pos(next@[k].board))
                &&& next@[k].level == step.level + 1
                &&& manhattan(init.row(), init.col(), next@[k].board.row(), next@[k].board.col()) <= next@[k].level
            } by {
                let d = admitted(step.board, step.level as int, v1, bound)[k];
                lemma_admitted_allowed(step.board, step.level as int, v1, bound, step.board.moves().len() as int, k);
                lemma_move_in_family(step.board, next@[k].board, d, c0);
                lemma_seen_family(v1, next@[k].board, c0);
            }
        }
        let ghost stale1 = count_stale(queue@, v1);
        while next.len() > 0
            invariant
                n == cell_count(),
                queue.wf(),
                init.wf(),
                init.valid(),
                c0 == init.cells(),
                visited@ == v1,
                forall|k: int| 0 <= k < queue@.len() ==> in_family(#[trigger] queue@[k].board, c0),
                forall|k: int| 0 <= k < visited@.len() ==> in_family(#[trigger] visited@[k], c0),
                forall|k: int| 0 <= k < steps@.len() ==> in_family((#[trigger] steps@[k]).board, c0),
                forall|k: int|
                    0 <= k < queue@.len() ==> (#[trigger] queue@[k]).level + (if seen_at(
                        visited@,
                        pos(queue@[k].board),
                    ) {
                        1int
                    } else {
                        0int
                    }) <= count_seen(visited@, n),
                0 <= count_seen(visited@, n) <= n,
                forall|k: int|
                    0 <= k < queue@.len() && (#[trigger] queue@[k]).level == 0 ==> queue@[k].board.cells()
                        == c0 && queue@[k].board.player_point == init.player_point,
                steps@.len() > 0,
                forall|k: int| 0 <= k < steps@.len() ==> (#[trigger] steps@[k]).level == k,
                forall|k: int| 0 <= k < queue@.len() ==> (#[trigger] queue@[k]).level <= steps@.len(),
                forall|k: int| 0 <= k < queue@.len() ==> manhattan(init.row(), init.col(), (#[trigger] queue@[k]).board.row(), queue@[k].board.col()) <= queue@[k].level,
                forall|k: int| 0 <= k < steps@.len() ==> manhattan(init.row(), init.col(), (#[trigger] steps@[k]).board.row(), steps@[k].board.col()) <= steps@[k].level,
                steps@.len() <= n + 1,
                step.level + 1 <= steps@.len(),
                steps@[0].board.cells() == c0,
                steps@[0].board.player_point == init.player_point,
                count_stale(queue@, v1) == stale1,
                forall|k: int| 0 <= k < next@.len() ==> {
                    &&& in_family((#[trigger] next@[k]).board, c0)
                    &&& !seen_at(v1, pos(next@[k].board))
                    &&& next@[k].level == step.level + 1
                    &&& manhattan(init.row(), init.col(), next@[k].board.row(), next@[k].board.col()) <= next@[k].level
                },
                step.level + 1 <= count_seen(v1, n),
                steps@ == st1,
                push_all(nodes_model(queue@), nodes_model(next@)) == target,
            decreases next@.len(),
        {
            let ghost qb = queue@;
            let ghost nb = next@;
            let e = next.remove(0);
            proof {
                queue.lemma_heap_order();
                crate::min_priority_queue::lemma_slot(qb, e.priority());
                lemma_count_stale_insert(qb, v1, crate::min_priority_queue::slot(qb, e.priority()), e);
            }
            queue.push(e);
            proof {
                lemma_slot_model(qb, e.priority());
                assert(nodes_model(queue@) =~= insert_model(nodes_model(qb), node_model(e)));
                assert(nodes_model(nb).drop_first() =~= nodes_model(next@));
                assert(nodes_model(nb)[0] == node_model(e));
                let j = crate::min_priority_queue::slot(qb, e.priority());
                assert forall|k: int| 0 <= k < queue@.len() implies {
                    &&& in_family((#[trigger] queue@[k]).board, c0)
                    &&& queue@[k].level + (if seen_at(visited@, pos(queue@[k].board)) { 1int } else { 0int }) <= count_seen(visited@, n)
                    &&& (queue@[k].level == 0 ==> queue@[k].board.cells() == c0 && queue@[k].board.player_point == init.player_point)
                    &&& queue@[k].level <= steps@.len()
                    &&& manhattan(init.row(), init.col(), queue@[k].board.row(), queue@[k].board.col()) <= queue@[k].level
                } by {
                    if k < j {
                        assert(queue@[k] == qb[k]);
                    } else if k > j {
                        assert(queue@[k] == qb[k - 1]);
                    }
                }
            }
        }
        proof {
            assert(nodes_model(next@) =~= seq![]);
            assert(run(s0, (it + 1) as nat) == search_step(run(s0, it)));
            it = it + 1;
            if seen_at(v0, pos(step.board)) {
                assert(q1 == q0.drop_first());
                assert(count_stale(q0, v0) == 1 + count_stale(q1, v0));
                lemma_count_stale_nonneg(q1, v0);
                lemma_count_stale_nonneg(queue@, visited@);
            } else {
                assert(0 <= pos(step.board) < n);
                assert(count_seen(v1, n) == d0 + 1);
            }
        }
    }
    let ghost f = choose|f: nat| finished(#[trigger] run(s0, f)) && run(s0, f).2 == nodes_model(steps@);
    proof {
        assert forall|row: int, col: int| #[trigger] token_at(c0, row, col) implies start_model(c0, row, col) == s0 by {
            assert(c0[index_of(init.row(), init.col())] == Status::Player);
            assert(index_of(row, col) == index_of(init.row(), init.col()));
        }
    }
    let last = steps.len() - 1;
    proof {
        assert(steps@[last as int].level == last);
    }
    if !steps[last].board.is_goal() {
        proof {
            assert(answer(run(s0, f)) == None::<Seq<BoardModel>>);
            assert(finished(run(s0, f)) && path_model(None) == answer(run(s0, f)));
        }
        return None;
    }
    let mut path: Vec<Board> = Vec::new();
    let mut i: usize = 0;
    while i < steps.len()
        invariant
            i <= steps@.len(),
            steps@.len() <= cell_count() + 1,
            path@.len() == i,
            forall|k: int| 0 <= k < steps@.len() ==> in_family((#[trigger] steps@[k]).board, init.cells()),
            init.cells() == flatten(*raw_board),
            forall|k: int|
                0 <= k < i ==> (#[trigger] path@[k]).cells() == steps@[k].board.cells()
                    && path@[k].player_point == steps@[k].board.player_point,
        decreases steps@.len() - i,
    {
        path.push(steps[i].board.duplicate());
        i = i + 1;
    }
    proof {
        assert(manhattan(init.row(), init.col(), steps@[last as int].board.row(), steps@[last as int].board.col()) <= last);
        assert(boards_model(path@) =~= run(s0, f).2.map_values(|x: NodeModel| x.2));
        assert(finished(run(s0, f)) && path_model(Some(path)) == answer(run(s0, f)));
    }
    Some(path)
}

} // verus!

use vstd::prelude::*;
use vstd::string::StringExecFns;
use vstd::string::StringSliceAdditionalSpecFns;
use std::cmp::Ordering;
use std::str::FromStr;

verus! {

/// Side length of the square grid.
pub const DIMENSION: usize = 5;

/// What occupies one cell of the grid.
#[derive(PartialEq, Eq, Structural, Clone, Copy, Debug)]
pub enum Status {
    Empty,
    Wall,
    Player,
}

/// The cell written as the single character `0` (empty), `1` (wall) or `2`
/// (token); nothing else names a cell.
pub open spec fn status_of(bytes: Seq<u8>) -> Option<Status> {
    if bytes == seq![48u8] {
        Some(Status::Empty)
    } else if bytes == seq![49u8] {
        Some(Status::Wall)
    } else if bytes == seq![50u8] {
        Some(Status::Player)
    } else {
        None
    }
}

impl Status {
    /// Reads a cell from its text.
    pub fn parse(s: &str) -> (r: Option<Status>)
        ensures
            r == status_of(s.spec_bytes()),
    {
        let b = s.as_bytes();
        if b.len() != 1 {
            return None;
        }
        let c = b[0];
        assert(b@ =~= seq![c]);
        if c == 48u8 {
            Some(Status::Empty)
        } else if c == 49u8 {
            Some(Status::Wall)
        } else if c == 50u8 {
            Some(Status::Player)
        } else {
            None
        }
    }
}

impl FromStr for Status {
    type Err = ();

    fn from_str(s: &str) -> (r: Result<Status, ()>)
        ensures
            r == match status_of(s.spec_bytes()) {
                Some(status) => Ok::<Status, ()>(status),
                None => Err(()),
            },
    {
        match Status::parse(s) {
            Some(status) => Ok(status),
            None => Err(()),
        }
    }
}

/// The grid as it is read: rows of cells.
pub type RawBoard = [[Status; DIMENSION]; DIMENSION];

/// Row and column of the token, or `usize::MAX` twice when there is none.
#[derive(PartialEq, Eq, Structural, Clone, Copy, Debug)]
pub struct PlayerPoint {
    pub row: usize,
    pub col: usize,
}

/// A snapshot of the grid, stored row by row, with the token's position.
pub struct Board {
    pub data: Vec<Status>,
    pub player_point: PlayerPoint,
}

/// Number of cells of the grid.
pub open spec fn cell_count() -> int {
    DIMENSION as int * DIMENSION as int
}

/// Position in the flattened grid of the cell at `(row, col)`.
pub open spec fn index_of(row: int, col: int) -> int {
    row * DIMENSION as int + col
}

pub open spec fn in_grid(row: int, col: int) -> bool {
    0 <= row < DIMENSION as int && 0 <= col < DIMENSION as int
}

/// The grid flattened row by row.
pub open spec fn flatten(raw: RawBoard) -> Seq<Status> {
    Seq::new(cell_count() as nat, |i: int| raw@[i / DIMENSION as int]@[i % DIMENSION as int])
}

/// No two cells hold the token.
pub open spec fn at_most_one_player(cells: Seq<Status>) -> bool {
    forall|i: int, j: int|
        0 <= i < cells.len() && 0 <= j < cells.len() && i != j && #[trigger] cells[i]
            == Status::Player ==> #[trigger] cells[j] != Status::Player
}

/// Row and column offsets of a direction: 0 up, 1 left, 2 down, 3 right.
pub open spec fn delta(d: int) -> (int, int) {
    if d == 0 {
        (-1, 0)
    } else if d == 1 {
        (0, -1)
    } else if d == 2 {
        (1, 0)
    } else {
        (0, 1)
    }
}

/// The direction that undoes direction `d`.
pub open spec fn inverse(d: int) -> int {
    (d + 2) % 4
}

/// The token at `(row, col)` may move in direction `d`: it stays on the grid
/// and does not enter a wall.
pub open spec fn can_step(cells: Seq<Status>, row: int, col: int, d: int) -> bool {
    let (r, c) = (row + delta(d).0, col + delta(d).1);
    &&& 0 <= d < 4
    &&& in_grid(r, c)
    &&& cells[index_of(r, c)] != Status::Wall
}

/// The grid after the token at `(row, col)` moved in direction `d`: the two
/// cells are swapped.
pub open spec fn step_cells(cells: Seq<Status>, row: int, col: int, d: int) -> Seq<Status> {
    let i = index_of(row, col);
    let j = index_of(row + delta(d).0, col + delta(d).1);
    cells.update(j, cells[i]).update(i, cells[j])
}

/// The token stands at `(row, col)` and nowhere else.
pub open spec fn token_at(cells: Seq<Status>, row: int, col: int) -> bool {
    &&& cells.len() == cell_count()
    &&& in_grid(row, col)
    &&& cells[index_of(row, col)] == Status::Player
    &&& forall|k: int|
        0 <= k < cell_count() && k != index_of(row, col) ==> #[trigger] cells[k] != Status::Player
}

/// Same walls in the same places.
pub open spec fn same_walls(a: Seq<Status>, b: Seq<Status>) -> bool {
    &&& a.len() == b.len()
    &&& forall|k: int| 0 <= k < a.len() ==> (#[trigger] a[k] == Status::Wall <==> b[k] == Status::Wall)
}

/// Text of one cell.
pub open spec fn cell_text(s: Status) -> Seq<char> {
    match s {
        Status::Empty => seq![' ', '_', ' '],
        Status::Wall => seq![' ', 'X', ' '],
        Status::Player => seq![' ', 'O', ' '],
    }
}

/// Text of the first `n` cells, a line break after each full row.
pub open spec fn render(cells: Seq<Status>, n: int) -> Seq<char>
    decreases n,
{
    if n <= 0 {
        seq![]
    } else {
        let line = render(cells, n - 1) + cell_text(cells[n - 1]);
        if n % DIMENSION as int == 0 {
            line.push('\n')
        } else {
            line
        }
    }
}

impl Board {
    /// The cells, row by row.
    pub open spec fn cells(&self) -> Seq<Status> {
        self.data@
    }

    pub open spec fn row(&self) -> int {
        self.player_point.row as int
    }

    pub open spec fn col(&self) -> int {
        self.player_point.col as int
    }

    pub open spec fn valid(&self) -> bool {
        self.player_point.row != usize::MAX && self.player_point.col != usize::MAX
    }

    /// Well formed: a full grid whose token, if any, is where the position says.
    pub open spec fn wf(&self) -> bool {
        &&& self.cells().len() == cell_count()
        &&& if self.valid() {
            token_at(self.cells(), self.row(), self.col())
        } else {
            &&& self.player_point.row == usize::MAX
            &&& self.player_point.col == usize::MAX
            &&& forall|k: int| 0 <= k < cell_count() ==> #[trigger] self.cells()[k] != Status::Player
        }
    }

    pub open spec fn can_move(&self, d: int) -> bool {
        self.valid() && can_step(self.cells(), self.row(), self.col(), d)
    }

    /// `s` is this board with the token moved in direction `d`.
    pub open spec fn is_move_of(&self, s: Board, d: int) -> bool {
        &&& s.wf()
        &&& s.cells() == step_cells(self.cells(), self.row(), self.col(), d)
        &&& s.row() == self.row() + delta(d).0
        &&& s.col() == self.col() + delta(d).1
    }

    /// The directions among the first `m` in which the token may move, in order.
    pub open spec fn moves_upto(&self, m: int) -> Seq<int>
        decreases m,
    {
        if m <= 0 {
            seq![]
        } else if self.can_move(m - 1) {
            self.moves_upto(m - 1).push(m - 1)
        } else {
            self.moves_upto(m - 1)
        }
    }

    /// The directions in which the token may move: up, left, down, right.
    pub open spec fn moves(&self) -> Seq<int> {
        self.moves_upto(4)
    }

    /// Builds a board from a grid that holds at most one token.
    pub fn new(data: &RawBoard) -> (r: Board)
        requires
            at_most_one_player(flatten(*data)),
        ensures
            r.wf(),
            r.cells() == flatten(*data),
    {
        let mut cells: Vec<Status> = Vec::new();
        let mut i: usize = 0;
        while i < DIMENSION * DIMENSION
            invariant
                i <= cell_count(),
                cells@ == flatten(*data).take(i as int),
            decreases cell_count() - i,
        {
            cells.push(data[i / DIMENSION][i % DIMENSION]);
            i = i + 1;
            assert(cells@ =~= flatten(*data).take(i as int));
        }
        assert(cells@ =~= flatten(*data));
        let mut board = Board {
            data: cells,
            player_point: PlayerPoint { row: usize::MAX, col: usize::MAX },
        };
        let mut j: usize = 0;
        while j < DIMENSION * DIMENSION
            invariant
                j <= cell_count(),
                at_most_one_player(flatten(*data)),
                board.cells() == flatten(*data),
                board.player_point == (PlayerPoint { row: usize::MAX, col: usize::MAX }),
                forall|k: int| 0 <= k < j ==> #[trigger] board.cells()[k] != Status::Player,
            decreases cell_count() - j,
        {
            if board.data[j] == Status::Player {
                board.player_point = PlayerPoint { row: j / DIMENSION, col: j % DIMENSION };
                assert(index_of(board.row(), board.col()) == j as int);
                assert(in_grid(board.row(), board.col()));
                assert(board.cells()[j as int] == Status::Player);
                assert forall|k: int|
                    0 <= k < cell_count() && k != index_of(board.row(), board.col()) implies
                    #[trigger] board.cells()[k] != Status::Player by {
                    let f = flatten(*data);
                    assert(f[j as int] == Status::Player);
                    assert(k != j as int);
                    assert(f.len() == cell_count());
                    if f[k] == Status::Player {
                        assert(f[j as int] != Status::Player);
                    }
                }
                return board;
            }
            j = j + 1;
        }
        board
    }

    /// The token stands in the bottom-right corner.
    pub fn is_goal(&self) -> (r: bool)
        ensures
            r == (self.row() == DIMENSION - 1 && self.col() == DIMENSION - 1),
    {
        self.player_point.row == DIMENSION - 1 && self.player_point.col == DIMENSION - 1
    }

    /// The board holds a token.
    pub fn is_valid(&self) -> (r: bool)
        ensures
            r == self.valid(),
    {
        self.player_point.row != usize::MAX && self.player_point.col != usize::MAX
    }

    fn copy_cells(&self) -> (r: Vec<Status>)
        ensures
            r@ == self.cells(),
    {
        let mut out: Vec<Status> = Vec::new();
        let mut i: usize = 0;
        while i < self.data.len()
            invariant
                i <= self.data@.len(),
                out@ == self.data@.take(i as int),
            decreases self.data@.len() - i,
        {
            out.push(self.data[i]);
            i = i + 1;
            assert(out@ =~= self.data@.take(i as int));
        }
        assert(out@ =~= self.data@);
        out
    }

    /// A copy of this board.
    pub fn duplicate(&self) -> (r: Board)
        ensures
            r.cells() == self.cells(),
            r.player_point == self.player_point,
    {
        Board { data: self.copy_cells(), player_point: self.player_point }
    }

    /// The board after the token moved in direction `d` to `(row, col)`.
    fn moved(&self, d: Ghost<int>, row: usize, col: usize) -> (r: Board)
        requires
            self.wf(),
            self.can_move(d@),
            row == self.row() + delta(d@).0,
            col == self.col() + delta(d@).1,
        ensures
            self.is_move_of(r, d@),
    {
        let i = self.player_point.row * DIMENSION + self.player_point.col;
        let j = row * DIMENSION + col;
        let mut cells = self.copy_cells();
        let a = cells[i];
        let b = cells[j];
        cells.set(i, b);
        cells.set(j, a);
        let r = Board { data: cells, player_point: PlayerPoint { row, col } };
        assert(r.cells() =~= step_cells(self.cells(), self.row(), self.col(), d@));
        r
    }

    /// The boards one move away, in the order up, left, down, right; none when
    /// the board holds no token.
    pub fn next_boards(&self) -> (r: Vec<Board>)
        requires
            self.wf(),
        ensures
            r@.len() == self.moves().len(),
            forall|k: int| 0 <= k < r@.len() ==> self.is_move_of(#[trigger] r@[k], self.moves()[k]),
    {
        let mut out: Vec<Board> = Vec::new();
        if !self.is_valid() {
            assert(self.moves_upto(4) =~= seq![]) by {
                reveal_with_fuel(Board::moves_upto, 5);
            }
            return out;
        }
        let row = self.player_point.row;
        let col = self.player_point.col;
        let index = row * DIMENSION + col;
        assert(self.moves_upto(0) =~= seq![]);
        if row > 0 && self.data[index - DIMENSION] != Status::Wall {
            out.push(self.moved(Ghost(0), row - 1, col));
        }
        assert(out@.len() == self.moves_upto(1).len());
        assert(forall|k: int| 0 <= k < out@.len() ==> self.is_move_of(#[trigger] out@[k], self.moves_upto(1)[k]));
        if col > 0 && self.data[index - 1] != Status::Wall {
            out.push(self.moved(Ghost(1), row, col - 1));
        }
        assert(out@.len() == self.moves_upto(2).len());
        assert(forall|k: int| 0 <= k < out@.len() ==> self.is_move_of(#[trigger] out@[k], self.moves_upto(2)[k]));
        if row + 1 < DIMENSION && self.data[index + DIMENSION] != Status::Wall {
            out.push(self.moved(Ghost(2), row + 1, col));
        }
        assert(out@.len() == self.moves_upto(3).len());
        assert(forall|k: int| 0 <= k < out@.len() ==> self.is_move_of(#[trigger] out@[k], self.moves_upto(3)[k]));
        if col + 1 < DIMENSION && self.data[index + 1] != Status::Wall {
            out.push(self.moved(Ghost(3), row, col + 1));
        }
        out
    }

    /// The grid as text: one line per row, three characters per cell.
    pub fn to_str(&self) -> (r: String)
        requires
            self.wf(),
        ensures
            r@ == render(self.cells(), cell_count()),
    {
        let mut builder = String::new();
        let mut i: usize = 0;
        while i < self.data.len()
            invariant
                self.data@.len() == cell_count(),
                i <= cell_count(),
                builder@ == render(self.cells(), i as int),
            decreases cell_count() - i,
        {
            match self.data[i] {
                Status::Empty => builder.append(" _ "),
                Status::Wall => builder.append(" X "),
                Status::Player => builder.append(" O "),
            }
            proof {
                reveal_strlit(" _ ");
                reveal_strlit(" X ");
                reveal_strlit(" O ");
            }
            if (i + 1) % DIMENSION == 0 {
                builder.append("\n");
                proof { reveal_strlit("\n"); }
            }
            i = i + 1;
            assert(builder@ =~= render(self.cells(), i as int));
        }
        builder
    }
}

/// Every direction listed by `moves` is one in which the token may move.
pub proof fn lemma_moves_allowed(b: Board, m: int, i: int)
    requires
        0 <= i < b.moves_upto(m).len(),
    ensures
        b.can_move(b.moves_upto(m)[i]),
        0 <= b.moves_upto(m)[i] < m,
    decreases m,
{
    if m > 0 {
        if i < b.moves_upto(m - 1).len() {
            lemma_moves_allowed(b, m - 1, i);
        }
    }
}

/// A board one move away keeps every wall where it was, swaps the token with
/// one orthogonally adjacent cell that is not a wall, leaves every other cell
/// as it was, and holds exactly one token.
pub proof fn lemma_next_board_swaps(b: Board, s: Board, k: int)
    requires
        b.wf(),
        0 <= k < b.moves().len(),
        b.is_move_of(s, b.moves()[k]),
    ensures
        same_walls(b.cells(), s.cells()),
        (s.row() == b.row() && (s.col() == b.col() + 1 || s.col() == b.col() - 1)) || (s.col()
            == b.col() && (s.row() == b.row() + 1 || s.row() == b.row() - 1)),
        b.cells()[index_of(s.row(), s.col())] != Status::Wall,
        s.cells()[index_of(b.row(), b.col())] == b.cells()[index_of(s.row(), s.col())],
        s.cells()[index_of(s.row(), s.col())] == b.cells()[index_of(b.row(), b.col())],
        forall|i: int|
            0 <= i < cell_count() && i != index_of(b.row(), b.col()) && i != index_of(s.row(), s.col())
                ==> #[trigger] s.cells()[i] == b.cells()[i],
        token_at(s.cells(), s.row(), s.col()),
        forall|i: int| 0 <= i < cell_count() && #[trigger] s.cells()[i] == Status::Player ==> i == index_of(s.row(), s.col()),
{
    lemma_moves_allowed(b, 4, k);
    let d = b.moves()[k];
    assert(s.valid());
}

/// Moving the token and then moving it back in the opposite direction gives
/// back the grid it started from, with the token where it started.
pub proof fn lemma_move_then_back(cells: Seq<Status>, row: int, col: int, d: int)
    requires
        token_at(cells, row, col),
        can_step(cells, row, col, d),
    ensures
        can_step(step_cells(cells, row, col, d), row + delta(d).0, col + delta(d).1, inverse(d)),
        row + delta(d).0 + delta(inverse(d)).0 == row,
        col + delta(d).1 + delta(inverse(d)).1 == col,
        step_cells(step_cells(cells, row, col, d), row + delta(d).0, col + delta(d).1, inverse(d))
            == cells,
{
    let moved = step_cells(cells, row, col, d);
    let (r, c) = (row + delta(d).0, col + delta(d).1);
    assert(moved[index_of(row, col)] != Status::Wall);
    assert(step_cells(moved, r, c, inverse(d)) =~= cells);
}

impl PartialEq for Board {
    /// Two boards are equal when their grids are.
    fn eq(&self, other: &Board) -> (r: bool) {
        if self.data.len() != other.data.len() {
            return false;
        }
        let mut i: usize = 0;
        while i < self.data.len()
            invariant
                self.data@.len() == other.data@.len(),
                i <= self.data@.len(),
                forall|k: int| 0 <= k < i ==> #[trigger] self.data@[k] == other.data@[k],
            decreases self.data@.len() - i,
        {
            if self.data[i] != other.data[i] {
                return false;
            }
            i = i + 1;
        }
        assert(self.data@ =~= other.data@);
        true
    }
}

impl vstd::std_specs::cmp::PartialEqSpecImpl for Board {
    open spec fn obeys_eq_spec() -> bool {
        true
    }

    open spec fn eq_spec(&self, other: &Board) -> bool {
        self.cells() == other.cells()
    }
}

/// How far the token has come towards the bottom-right corner.
pub open spec fn progress(b: &Board) -> int {
    b.row() + b.col()
}

impl PartialOrd for Board {
    /// The board whose token has come further towards the corner is the lesser.
    fn partial_cmp(&self, other: &Board) -> (r: Option<Ordering>) {
        let mine = self.player_point.row as u128 + self.player_point.col as u128;
        let theirs = other.player_point.row as u128 + other.player_point.col as u128;
        if theirs < mine {
            Some(Ordering::Less)
        } else if theirs == mine {
            Some(Ordering::Equal)
        } else {
            Some(Ordering::Greater)
        }
    }
}

impl vstd::std_specs::cmp::PartialOrdSpecImpl for Board {
    open spec fn obeys_partial_cmp_spec() -> bool {
        true
    }

    open spec fn partial_cmp_spec(&self, other: &Board) -> Option<Ordering> {
        if progress(other) < progress(self) {
            Some(Ordering::Less)
        } else if progress(other) == progress(self) {
            Some(Ordering::Equal)
        } else {
            Some(Ordering::Greater)
        }
    }
}

} // verus!

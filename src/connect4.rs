use vstd::prelude::*;
use crate::game::GameState;

verus! {

/// The players of connect 4.
#[derive(Clone, Copy, PartialEq, Eq, Structural, Debug)]
pub enum Player {
    Red,
    Yellow,
}

impl Player {
    pub open spec fn next_spec(self) -> Player {
        match self {
            Player::Red => Player::Yellow,
            Player::Yellow => Player::Red,
        }
    }

    pub open spec fn prev_spec(self) -> Player {
        match self {
            Player::Yellow => Player::Red,
            Player::Red => Player::Yellow,
        }
    }

    /// Returns a vec containing all available players, in turn order.
    pub fn all() -> (r: Vec<Player>)
        ensures
            r@ == seq![Player::Red, Player::Yellow],
    {
        vec![Player::Red, Player::Yellow]
    }

    /// Returns the next player in the turn sequence.
    pub fn next(self) -> (r: Player)
        ensures
            r == self.next_spec(),
    {
        match self {
            Player::Red => Player::Yellow,
            Player::Yellow => Player::Red,
        }
    }

    /// Returns the previous player in the turn sequence.
    pub fn prev(self) -> (r: Player)
        ensures
            r == self.prev_spec(),
    {
        match self {
            Player::Yellow => Player::Red,
            Player::Red => Player::Yellow,
        }
    }

    /// The one-letter symbol of the player on a printed board.
    pub fn to_char(self) -> (r: char)
        ensures
            r == (if self == Player::Red { 'R' } else { 'Y' }),
    {
        match self {
            Player::Red => 'R',
            Player::Yellow => 'Y',
        }
    }
}

/// The moves available in connect 4: the column that the player drops a piece into.
pub type Move = u8;

/// The ways a move can be rejected.
#[derive(Clone, Copy, PartialEq, Eq, Structural, Debug)]
pub enum MoveError {
    OutOfRange(Move),
    ColumnFull(Move),
}

pub const WIDTH: usize = 7;
pub const HEIGHT: usize = 6;
pub const CONNECT_LEN: usize = 4;
pub const CELLS: usize = WIDTH * HEIGHT;

/// Where cell (`c`, `r`) is stored: columns one after another, bottom row first.
pub open spec fn cell_index(c: int, r: int) -> int {
    c * HEIGHT as int + r
}

pub open spec fn in_board(c: int, r: int) -> bool {
    0 <= c < WIDTH as int && 0 <= r < HEIGHT as int
}

pub open spec fn cell_of(b: Seq<Option<Player>>, c: int, r: int) -> Option<Player> {
    b[cell_index(c, r)]
}

/// How many pieces of `ply` follow (`c`, `r`) without a gap in direction (`dc`, `dr`),
/// counted from distance `dist` up to `CONNECT_LEN - 1`.
pub open spec fn run_len(
    b: Seq<Option<Player>>,
    c: int,
    r: int,
    dc: int,
    dr: int,
    ply: Player,
    dist: int,
) -> nat
    decreases CONNECT_LEN as int - dist,
{
    if dist < 1 || dist >= CONNECT_LEN as int {
        0
    } else if in_board(c + dc * dist, r + dr * dist) && cell_of(b, c + dc * dist, r + dr * dist)
        == Some(ply) {
        1 + run_len(b, c, r, dc, dr, ply, dist + 1)
    } else {
        0
    }
}

/// The length of the line of `ply` through (`c`, `r`) along (`dc`, `dr`), both ways.
pub open spec fn line_len(b: Seq<Option<Player>>, c: int, r: int, dc: int, dr: int, ply: Player) -> nat {
    1 + run_len(b, c, r, dc, dr, ply, 1) + run_len(b, c, r, -dc, -dr, ply, 1)
}

/// The four directions a line can take.
pub open spec fn direction(i: int) -> (int, int) {
    if i == 0 {
        (1, 0)
    } else if i == 1 {
        (1, 1)
    } else if i == 2 {
        (0, 1)
    } else {
        (-1, 1)
    }
}

/// Some line of `ply` through (`c`, `r`) along one of the first `n` directions is long enough to win.
pub open spec fn connects_within(b: Seq<Option<Player>>, c: int, r: int, ply: Player, n: int) -> bool {
    exists|i: int|
        0 <= i < n && #[trigger] line_len(b, c, r, direction(i).0, direction(i).1, ply)
            >= CONNECT_LEN as int
}

/// The winner once the piece at (`c`, `r`) is on board `b`, given the winner before.
pub open spec fn winner_after(b: Seq<Option<Player>>, c: int, r: int, before: Option<Player>) -> Option<
    Player,
> {
    match cell_of(b, c, r) {
        Some(ply) => if connects_within(b, c, r, ply, 4) {
            Some(ply)
        } else {
            before
        },
        None => before,
    }
}

/// The lowest empty row of column `c` at or above row `r`; `HEIGHT` when there is none.
pub open spec fn first_empty_from(b: Seq<Option<Player>>, c: int, r: int) -> int
    decreases HEIGHT as int - r,
{
    if r >= HEIGHT as int || r < 0 {
        HEIGHT as int
    } else if cell_of(b, c, r) is None {
        r
    } else {
        first_empty_from(b, c, r + 1)
    }
}

/// The columns below `n` whose top cell is empty, in ascending order.
pub open spec fn open_columns(b: Seq<Option<Player>>, n: int) -> Seq<Move>
    decreases n,
{
    if n <= 0 {
        seq![]
    } else {
        open_columns(b, n - 1) + if cell_of(b, n - 1, HEIGHT as int - 1) is None {
            seq![(n - 1) as Move]
        } else {
            seq![]
        }
    }
}

/// The number of empty cells among the first `n`.
pub open spec fn empty_count(b: Seq<Option<Player>>, n: int) -> nat
    decreases n,
{
    if n <= 0 {
        0
    } else {
        empty_count(b, n - 1) + if b[n - 1] is None {
            1nat
        } else {
            0nat
        }
    }
}

proof fn lemma_open_columns(b: Seq<Option<Player>>, n: int, m: Move)
    requires
        0 <= n <= WIDTH,
        open_columns(b, n).contains(m),
    ensures
        (m as int) < n,
        cell_of(b, m as int, HEIGHT as int - 1) is None,
    decreases n,
{
    if n > 0 {
        let last = if cell_of(b, n - 1, HEIGHT as int - 1) is None {
            seq![(n - 1) as Move]
        } else {
            seq![]
        };
        let i = choose|i: int| 0 <= i < open_columns(b, n).len() && open_columns(b, n)[i] == m;
        if i < open_columns(b, n - 1).len() {
            assert(open_columns(b, n - 1)[i] == m);
            lemma_open_columns(b, n - 1, m);
        } else {
            assert(last[i - open_columns(b, n - 1).len()] == m);
        }
    }
}

proof fn lemma_first_empty(b: Seq<Option<Player>>, c: int, r: int)
    requires
        0 <= r < HEIGHT,
        cell_of(b, c, HEIGHT as int - 1) is None,
    ensures
        r <= first_empty_from(b, c, r) < HEIGHT,
        cell_of(b, c, first_empty_from(b, c, r)) is None,
    decreases HEIGHT as int - r,
{
    if cell_of(b, c, r) is Some {
        lemma_first_empty(b, c, r + 1);
    }
}

proof fn lemma_first_empty_is_empty(b: Seq<Option<Player>>, c: int, r: int)
    requires
        0 <= r,
        first_empty_from(b, c, r) < HEIGHT,
    ensures
        r <= first_empty_from(b, c, r),
        cell_of(b, c, first_empty_from(b, c, r)) is None,
    decreases HEIGHT as int - r,
{
    if r < HEIGHT && cell_of(b, c, r) is Some {
        lemma_first_empty_is_empty(b, c, r + 1);
    }
}

proof fn lemma_fill_cell(b: Seq<Option<Player>>, n: int, i: int, p: Player)
    requires
        0 <= i < n <= b.len(),
        b[i] is None,
    ensures
        empty_count(b.update(i, Some(p)), n) + 1 == empty_count(b, n),
    decreases n,
{
    let u = b.update(i, Some(p));
    if i < n - 1 {
        lemma_fill_cell(b, n - 1, i, p);
        assert(u[n - 1] == b[n - 1]);
    } else {
        lemma_unchanged_prefix(b, u, n - 1);
    }
}

proof fn lemma_unchanged_prefix(b: Seq<Option<Player>>, u: Seq<Option<Player>>, n: int)
    requires
        0 <= n <= b.len(),
        n <= u.len(),
        forall|j: int| 0 <= j < n ==> b[j] == u[j],
    ensures
        empty_count(b, n) == empty_count(u, n),
    decreases n,
{
    if n > 0 {
        lemma_unchanged_prefix(b, u, n - 1);
    }
}

#[derive(Clone, Copy)]
struct Point(usize, usize);

#[derive(Clone, Copy)]
struct PointDirection(i64, i64);

/// The connect 4 game state.
#[derive(Clone, Copy, Debug)]
pub struct Game {
    turn: Player,
    board: [Option<Player>; CELLS],
    winner: Option<Player>,
}

impl Game {
    /// The cells of the board, indexed by `cell_index`.
    pub closed spec fn cells(&self) -> Seq<Option<Player>> {
        self.board@
    }

    pub closed spec fn turn(&self) -> Player {
        self.turn
    }

    pub closed spec fn winner(&self) -> Option<Player> {
        self.winner
    }

    pub open spec fn cell(&self, c: int, r: int) -> Option<Player> {
        cell_of(self.cells(), c, r)
    }

    /// Constructs a new connect 4 game state: an empty board with red to move.
    pub fn new() -> (r: Game)
        ensures
            r.cells().len() == CELLS,
            forall|i: int| 0 <= i < CELLS ==> r.cells()[i] is None,
            r.turn() == Player::Red,
            r.winner() is None,
    {
        Game { turn: Player::Red, board: [None; CELLS], winner: None }
    }

    /// The piece at column `col`, row `row` (row 0 is the bottom).
    pub fn get_cell(&self, col: usize, row: usize) -> (r: Option<Player>)
        requires
            col < WIDTH,
            row < HEIGHT,
        ensures
            r == self.cell(col as int, row as int),
    {
        self.board[col * HEIGHT + row]
    }
}


impl Game {
    /// Updates the stored winner from the piece at the given cell.
    fn update_winner_from(&mut self, col: usize, row: usize)
        requires
            col < WIDTH,
            row < HEIGHT,
        ensures
            final(self).cells() == old(self).cells(),
            final(self).turn() == old(self).turn(),
            final(self).winner() == winner_after(old(self).cells(), col as int, row as int, old(self).winner()),
    {
        if let Some(ply) = self.board[col * HEIGHT + row] {
            let dirs: [PointDirection; 4] = [
                PointDirection(1, 0),
                PointDirection(1, 1),
                PointDirection(0, 1),
                PointDirection(-1, 1),
            ];
            let ghost before = self.winner;
            let mut i: usize = 0;
            while i < 4
                invariant
                    i <= 4,
                    col < WIDTH,
                    row < HEIGHT,
                    self.board@ == old(self).board@,
                    self.turn == old(self).turn,
                    before == old(self).winner,
                    self.cells()[cell_index(col as int, row as int)] == Some(ply),
                    forall|k: int| 0 <= k < 4 ==> dirs@[k].0 == direction(k).0 && dirs@[k].1 == direction(k).1,
                    self.winner == (if connects_within(self.cells(), col as int, row as int, ply, i as int) {
                        Some(ply)
                    } else {
                        before
                    }),
                decreases 4 - i,
            {
                let dir = dirs[i];
                assert(dir.0 == direction(i as int).0 && dir.1 == direction(i as int).1);
                let start = Point(col, row);
                // Counts the pieces that are the same in the given direction and its reverse.
                let count = 1 + self.count_line_from(start, dir, ply, false) + self.count_line_from(
                    start,
                    dir,
                    ply,
                    true,
                );
                let ghost b = self.cells();
                assert(connects_within(b, col as int, row as int, ply, i + 1) <==> (connects_within(
                    b,
                    col as int,
                    row as int,
                    ply,
                    i as int,
                ) || line_len(b, col as int, row as int, direction(i as int).0, direction(i as int).1, ply)
                    >= CONNECT_LEN));
                if count >= CONNECT_LEN as u64 {
                    self.winner = Some(ply);
                }
                i = i + 1;
            }
        }
    }

    /// Counts the pieces of `player` that follow `start` in the given direction.
    fn count_line_from(&self, start: Point, dir: PointDirection, player: Player, rev: bool) -> (r: u64)
        requires
            start.0 < WIDTH,
            start.1 < HEIGHT,
            -1 <= dir.0 <= 1,
            -1 <= dir.1 <= 1,
        ensures
            r == run_len(
                self.cells(),
                start.0 as int,
                start.1 as int,
                if rev { -dir.0 } else { dir.0 as int },
                if rev { -dir.1 } else { dir.1 as int },
                player,
                1,
            ),
            r < CONNECT_LEN,
    {
        let ghost dc: int = if rev { -dir.0 } else { dir.0 as int };
        let ghost dr: int = if rev { -dir.1 } else { dir.1 as int };
        let ghost b = self.cells();
        let mut count: u64 = 0;
        let mut dist: i64 = 1;
        while dist < CONNECT_LEN as i64
            invariant
                1 <= dist <= CONNECT_LEN,
                count < dist,
                count + run_len(b, start.0 as int, start.1 as int, dc, dr, player, dist as int)
                    == run_len(b, start.0 as int, start.1 as int, dc, dr, player, 1),
                start.0 < WIDTH,
                start.1 < HEIGHT,
                -1 <= dir.0 <= 1,
                -1 <= dir.1 <= 1,
                b == self.cells(),
                dc == (if rev { -dir.0 } else { dir.0 as int }),
                dr == (if rev { -dir.1 } else { dir.1 as int }),
            decreases CONNECT_LEN - dist,
        {
            let mut same = false;
            if let Some(Point(col, row)) = Self::get_point_from(start, dir, dist, rev) {
                if let Some(ply) = self.board[col * HEIGHT + row] {
                    if ply == player {
                        same = true;
                    }
                }
            }
            assert(dc * dist == (if rev { -(dir.0 * dist) } else { dir.0 * dist as int })) by (nonlinear_arith)
                requires dc == (if rev { -dir.0 } else { dir.0 as int });
            assert(dr * dist == (if rev { -(dir.1 * dist) } else { dir.1 * dist as int })) by (nonlinear_arith)
                requires dr == (if rev { -dir.1 } else { dir.1 as int });
            if same {
                count = count + 1;
                dist = dist + 1;
            } else {
                dist = CONNECT_LEN as i64;
            }
        }
        count
    }

    /// Gets the cell in a given direction and distance away from `start`, if it is on the board.
    fn get_point_from(start: Point, dir: PointDirection, dist: i64, rev: bool) -> (r: Option<Point>)
        requires
            start.0 < WIDTH,
            start.1 < HEIGHT,
            -1 <= dir.0 <= 1,
            -1 <= dir.1 <= 1,
            0 <= dist < CONNECT_LEN,
        ensures
            ({
                let nc = if rev { start.0 - dir.0 * dist } else { start.0 + dir.0 * dist };
                let nr = if rev { start.1 - dir.1 * dist } else { start.1 + dir.1 * dist };
                match r {
                    Some(p) => in_board(nc, nr) && p.0 == nc && p.1 == nr,
                    None => !in_board(nc, nr),
                }
            }),
    {
        let Point(col_i, row_i) = start;
        let PointDirection(col_d, row_d) = dir;
        assert(-3 <= col_d * dist <= 3 && -3 <= row_d * dist <= 3) by (nonlinear_arith)
            requires -1 <= col_d <= 1, -1 <= row_d <= 1, 0 <= dist < 4;
        let c_d = col_d * dist;
        let r_d = row_d * dist;
        let (n_col, n_row) = if rev {
            (col_i as i64 - c_d, row_i as i64 - r_d)
        } else {
            (col_i as i64 + c_d, row_i as i64 + r_d)
        };
        if n_col >= 0 && n_col < WIDTH as i64 && n_row >= 0 && n_row < HEIGHT as i64 {
            Some(Point(n_col as usize, n_row as usize))
        } else {
            None
        }
    }
}

impl GameState for Game {
    type Player = Player;

    type Move = Move;

    type Error = MoveError;

    fn same_move(a: &Move, b: &Move) -> (r: bool) {
        *a == *b
    }

    fn same_player(a: &Player, b: &Player) -> (r: bool) {
        *a == *b
    }

    open spec fn moves_spec(&self) -> Seq<Move> {
        if self.winner() is Some {
            seq![]
        } else {
            open_columns(self.cells(), WIDTH as int)
        }
    }

    open spec fn winner_spec(&self) -> Option<Player> {
        self.winner()
    }

    open spec fn current_spec(&self) -> Player {
        self.turn()
    }

    open spec fn prev_spec(&self) -> Player {
        self.turn().prev_spec()
    }

    open spec fn move_error(&self, mv: Move) -> Option<MoveError> {
        if mv as int >= WIDTH {
            Some(MoveError::OutOfRange(mv))
        } else if first_empty_from(self.cells(), mv as int, 0) >= HEIGHT {
            Some(MoveError::ColumnFull(mv))
        } else {
            None
        }
    }

    open spec fn applies(&self, mv: Move, next: Game) -> bool {
        let row = first_empty_from(self.cells(), mv as int, 0);
        let placed = self.cells().update(cell_index(mv as int, row), Some(self.turn()));
        &&& self.move_error(mv) is None
        &&& next.cells() == placed
        &&& next.turn() == self.turn().next_spec()
        &&& next.winner() == winner_after(placed, mv as int, row, self.winner())
    }

    open spec fn moves_left(&self) -> nat {
        empty_count(self.cells(), CELLS as int)
    }

    proof fn lemma_legal_move_applies(&self, mv: Move) {
        lemma_open_columns(self.cells(), WIDTH as int, mv);
        lemma_first_empty(self.cells(), mv as int, 0);
    }

    proof fn lemma_move_progress(&self, mv: Move, next: Game) {
        let b = self.cells();
        lemma_first_empty_is_empty(b, mv as int, 0);
        lemma_fill_cell(b, CELLS as int, cell_index(mv as int, first_empty_from(b, mv as int, 0)), self.turn());
    }

    fn from_move(&self, mv: Move) -> (r: Result<Game, MoveError>) {
        let mut new_state = *self;
        match new_state.make_move(mv) {
            Ok(()) => Ok(new_state),
            Err(e) => Err(e),
        }
    }

    fn make_move(&mut self, mv: Move) -> (r: Result<(), MoveError>) {
        let col_i = mv as usize;
        if col_i >= WIDTH {
            return Err(MoveError::OutOfRange(mv));
        }
        let ghost b = self.board@;
        let mut row_i: usize = 0;
        while row_i < HEIGHT && self.board[col_i * HEIGHT + row_i].is_some()
            invariant
                row_i <= HEIGHT,
                col_i < WIDTH,
                b == self.board@,
                first_empty_from(b, col_i as int, row_i as int) == first_empty_from(b, col_i as int, 0),
            decreases HEIGHT - row_i,
        {
            row_i = row_i + 1;
        }
        if row_i == HEIGHT {
            Err(MoveError::ColumnFull(mv))
        } else {
            self.board[col_i * HEIGHT + row_i] = Some(self.turn);
            self.update_winner_from(col_i, row_i);
            self.turn = self.turn.next();
            Ok(())
        }
    }

    fn get_moves(&self) -> (r: Vec<Move>) {
        match self.winner {
            Some(_) => Vec::new(),
            None => {
                let mut moves: Vec<Move> = Vec::new();
                let mut i: usize = 0;
                while i < WIDTH
                    invariant
                        i <= WIDTH,
                        moves@ == open_columns(self.board@, i as int),
                    decreases WIDTH - i,
                {
                    // A column with an empty top cell has space.
                    if self.board[i * HEIGHT + HEIGHT - 1].is_none() {
                        moves.push(i as Move);
                    }
                    i = i + 1;
                }
                moves
            }
        }
    }

    fn get_winner(&self) -> (r: Option<Player>) {
        self.winner
    }

    fn get_current_player(&self) -> (r: Player) {
        self.turn
    }

    fn get_prev_player(&self) -> (r: Player) {
        self.turn.prev()
    }
}

} // verus!

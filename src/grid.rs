//! The board: cells, insertion under gravity, and win detection.

use vstd::prelude::*;

verus! {

/// Number of rows of the board; row 0 is the top, row 5 the bottom.
pub const ROWS: usize = 6;

/// Number of columns of the board, numbered from the left.
pub const COLUMNS: usize = 9;

/// The two players. `Yellow` moves first.
#[derive(Debug, Copy, Clone, PartialEq, Eq, Structural)]
pub enum Player {
    Yellow,
    Red,
}

impl Player {
    /// The player who moves after `self`.
    pub open spec fn opponent(self) -> Player {
        match self {
            Player::Yellow => Player::Red,
            Player::Red => Player::Yellow,
        }
    }

    /// The other player.
    pub fn other(self) -> (r: Player)
        ensures
            r == self.opponent(),
    {
        match self {
            Player::Yellow => Player::Red,
            Player::Red => Player::Yellow,
        }
    }
}

/// Why an insertion or a move choice was refused.
#[derive(Debug, Copy, Clone, PartialEq, Eq, Structural)]
pub enum GameError {
    /// The column index is not below `COLUMNS`.
    InvalidColumn,
    /// The top cell of the column is already taken.
    ColumnFull,
    /// The game already has a winner.
    GameOver,
    /// A best move was asked of an empty list of moves.
    NoMovesAvailable,
}

/// A board position: the cells in row-major order, whose turn it is, and
/// the winner once there is one.
#[derive(Debug, Copy, Clone)]
pub struct GridState {
    grid: [Option<Player>; 54],
    pub turn: Player,
    pub winner: Option<Player>,
}

/// One move: the board before and the board after one insertion.
#[derive(Debug, Copy, Clone)]
pub struct GameMove {
    pub previous: GridState,
    pub next: GridState,
}

impl GameMove {
    /// A move between two empty boards.
    pub fn new() -> (m: GameMove)
        ensures
            m.previous@ == empty_board(),
            m.next@ == empty_board(),
    {
        GameMove { previous: GridState::new(), next: GridState::new() }
    }
}

/// The moves of a game, in the order they were played.
pub struct Game {
    moves: Vec<GameMove>,
}

/// The mathematical model of a board.
pub struct BoardView {
    /// Cell `(r, c)` stands at index `r * COLUMNS + c`.
    pub cells: Seq<Option<Player>>,
    pub turn: Player,
    pub winner: Option<Player>,
}

impl View for GridState {
    type V = BoardView;

    closed spec fn view(&self) -> BoardView {
        BoardView { cells: self.grid@, turn: self.turn, winner: self.winner }
    }
}

/// `(dr, dc)` is one of the four win axes: horizontal, vertical, rising
/// diagonal, falling diagonal.
pub open spec fn is_axis(dr: int, dc: int) -> bool {
    (dr, dc) == (0int, 1int) || (dr, dc) == (1int, 0int) || (dr, dc) == (-1int, 1int) || (dr, dc)
        == (1int, 1int)
}

/// `(r, c)` names a cell of the board.
pub open spec fn in_bounds(r: int, c: int) -> bool {
    0 <= r < ROWS && 0 <= c < COLUMNS
}

/// The number of empty cells in `s`.
pub open spec fn empty_count(s: Seq<Option<Player>>) -> nat
    decreases s.len(),
{
    if s.len() == 0 {
        0
    } else {
        empty_count(s.drop_last()) + if s.last().is_none() {
            1nat
        } else {
            0nat
        }
    }
}

/// Filling an empty cell leaves one empty cell fewer.
pub proof fn lemma_empty_count_fill(s: Seq<Option<Player>>, i: int, p: Player)
    requires
        0 <= i < s.len(),
        s[i].is_none(),
    ensures
        empty_count(s.update(i, Some(p))) + 1 == empty_count(s),
    decreases s.len(),
{
    let t = s.update(i, Some(p));
    if i < s.len() - 1 {
        assert(t.drop_last() =~= s.drop_last().update(i, Some(p)));
        lemma_empty_count_fill(s.drop_last(), i, p);
    } else {
        assert(t.drop_last() =~= s.drop_last());
    }
}

/// The board at the start of a game: every cell empty, Yellow to move.
pub open spec fn empty_board() -> BoardView {
    BoardView {
        cells: Seq::new((ROWS * COLUMNS) as nat, |i: int| None::<Player>),
        turn: Player::Yellow,
        winner: None,
    }
}

/// The character a cell is drawn with: `_` when empty, else the initial of
/// the owner's colour.
pub open spec fn marker_of(cell: Option<Player>) -> char {
    match cell {
        None => '_',
        Some(Player::Yellow) => 'Y',
        Some(Player::Red) => 'R',
    }
}

impl BoardView {
    pub open spec fn cell(self, r: int, c: int) -> Option<Player> {
        self.cells[r * COLUMNS + c]
    }

    /// The cell `(r, c)` lies on the board and holds a tile of `p`.
    pub open spec fn owned(self, r: int, c: int, p: Player) -> bool {
        in_bounds(r, c) && self.cell(r, c) == Some(p)
    }

    /// How many of the next `n` cells from `(r, c)` in direction `(dr, dc)`
    /// hold tiles of `p` without a gap.
    pub open spec fn run(self, r: int, c: int, dr: int, dc: int, p: Player, n: nat) -> nat
        decreases n,
    {
        if n == 0 || !self.owned(r + dr, c + dc, p) {
            0
        } else {
            1 + self.run(r + dr, c + dc, dr, dc, p, (n - 1) as nat)
        }
    }

    pub proof fn lemma_run_bound(self, r: int, c: int, dr: int, dc: int, p: Player, n: nat)
        ensures
            self.run(r, c, dr, dc, p, n) <= n,
        decreases n,
    {
        if n > 0 {
            self.lemma_run_bound(r + dr, c + dc, dr, dc, p, (n - 1) as nat);
        }
    }

    /// Tiles of `p` on both sides of `(r, c)` along the axis `(dr, dc)`,
    /// counting at most three on each side.
    pub open spec fn axis_count(self, r: int, c: int, dr: int, dc: int, p: Player) -> nat {
        self.run(r, c, dr, dc, p, 3) + self.run(r, c, -dr, -dc, p, 3)
    }

    /// A tile of `p` placed at `(r, c)` completes four in a row along the
    /// horizontal, the vertical, the rising or the falling diagonal.
    pub open spec fn wins_at(self, r: int, c: int, p: Player) -> bool {
        self.axis_count(r, c, 0, 1, p) >= 3 || self.axis_count(r, c, 1, 0, p) >= 3
            || self.axis_count(r, c, -1, 1, p) >= 3 || self.axis_count(r, c, 1, 1, p) >= 3
    }

    /// Every cell has the right length of storage.
    pub open spec fn sized(self) -> bool {
        self.cells.len() == ROWS * COLUMNS
    }

    /// Columns fill bottom-up: an occupied cell above the bottom row stands
    /// on an occupied cell.
    pub open spec fn wf(self) -> bool {
        &&& self.sized()
        &&& forall|r: int, c: int|
            0 <= r < ROWS - 1 && 0 <= c < COLUMNS && (#[trigger] self.cell(r, c)).is_some()
                ==> self.cell(r + 1, c).is_some()
    }

    /// Every cell is occupied.
    pub open spec fn is_full(self) -> bool {
        forall|r: int, c: int| in_bounds(r, c) ==> (#[trigger] self.cell(r, c)).is_some()
    }

    /// The top cell of column `c` is occupied.
    pub open spec fn column_full(self, c: int) -> bool {
        self.cell(0, c).is_some()
    }

    /// The row where a tile dropped into column `c` comes to rest: scanning
    /// from row `j` upwards, the first empty row, or row 0 if none is.
    pub open spec fn free_row_from(self, c: int, j: int) -> int
        decreases j,
    {
        if j <= 0 {
            0
        } else if self.cell(j, c).is_none() {
            j
        } else {
            self.free_row_from(c, j - 1)
        }
    }

    pub open spec fn free_row(self, c: int) -> int {
        self.free_row_from(c, ROWS - 1)
    }

    proof fn lemma_free_row_from(self, c: int, j: int)
        requires
            0 <= j < ROWS,
            self.cell(0, c).is_none(),
        ensures
            0 <= self.free_row_from(c, j) <= j,
            self.cell(self.free_row_from(c, j), c).is_none(),
            forall|r: int| self.free_row_from(c, j) < r <= j ==> self.cell(r, c).is_some(),
        decreases j,
    {
        if j > 0 && self.cell(j, c).is_some() {
            self.lemma_free_row_from(c, j - 1);
        }
    }

    /// Gravity: a tile dropped into a column that is not full comes to rest
    /// on the lowest empty cell, with only occupied cells below it.
    pub proof fn lemma_gravity(self, c: int)
        requires
            0 <= c < COLUMNS,
            !self.column_full(c),
        ensures
            0 <= self.free_row(c) < ROWS,
            self.cell(self.free_row(c), c).is_none(),
            forall|r: int| self.free_row(c) < r < ROWS ==> self.cell(r, c).is_some(),
    {
        self.lemma_free_row_from(c, ROWS - 1);
    }

    /// What `insert` refuses column `c` with, if anything, in the order
    /// the checks are made.
    pub open spec fn insert_error(self, c: int) -> Option<GameError> {
        if !(0 <= c < COLUMNS) {
            Some(GameError::InvalidColumn)
        } else if self.column_full(c) {
            Some(GameError::ColumnFull)
        } else if self.winner.is_some() {
            Some(GameError::GameOver)
        } else {
            None
        }
    }

    pub open spec fn can_insert(self, c: int) -> bool {
        self.insert_error(c).is_none()
    }

    /// The board after the mover drops a tile into column `c`.
    pub open spec fn inserted(self, c: int) -> BoardView {
        let r = self.free_row(c);
        BoardView {
            cells: self.cells.update(r * COLUMNS + c, Some(self.turn)),
            turn: self.turn.opponent(),
            winner: if self.wins_at(r, c, self.turn) {
                Some(self.turn)
            } else {
                self.winner
            },
        }
    }

    /// The columns below `n` that accept a tile, in ascending order.
    pub open spec fn legal_columns(self, n: int) -> Seq<int>
        decreases n,
    {
        if n <= 0 {
            Seq::empty()
        } else if self.can_insert(n - 1) {
            self.legal_columns(n - 1).push(n - 1)
        } else {
            self.legal_columns(n - 1)
        }
    }

    /// Every column that `legal_columns` lists accepts a tile.
    pub proof fn lemma_legal_columns(self, n: int)
        ensures
            forall|k: int|
                0 <= k < self.legal_columns(n).len() ==> 0 <= #[trigger] self.legal_columns(n)[k]
                    < n && self.can_insert(self.legal_columns(n)[k]),
        decreases n,
    {
        if n > 0 {
            self.lemma_legal_columns(n - 1);
            let prev = self.legal_columns(n - 1);
            assert forall|k: int| 0 <= k < self.legal_columns(n).len() implies 0
                <= #[trigger] self.legal_columns(n)[k] < n && self.can_insert(
                self.legal_columns(n)[k],
            ) by {
                if k < prev.len() {
                    assert(self.legal_columns(n)[k] == prev[k]);
                }
            }
        }
    }

    /// A successful insertion fills exactly one empty cell.
    pub proof fn lemma_inserted_fills_one(self, c: int)
        requires
            self.sized(),
            self.can_insert(c),
        ensures
            self.inserted(c).sized(),
            empty_count(self.inserted(c).cells) + 1 == empty_count(self.cells),
    {
        self.lemma_gravity(c);
        lemma_empty_count_fill(self.cells, self.free_row(c) * COLUMNS + c, self.turn);
    }

    /// A successful insertion keeps columns filled bottom-up.
    pub proof fn lemma_inserted_wf(self, c: int)
        requires
            self.wf(),
            self.can_insert(c),
        ensures
            self.inserted(c).wf(),
    {
        self.lemma_gravity(c);
        let free = self.free_row(c);
        let after = self.inserted(c);
        assert forall|r: int, c2: int|
            0 <= r < ROWS - 1 && 0 <= c2 < COLUMNS && (#[trigger] after.cell(r, c2)).is_some()
                implies after.cell(r + 1, c2).is_some() by {
            if r == free && c2 == c {
                assert(self.cell(r + 1, c2).is_some());
            } else {
                assert(self.cell(r, c2) == after.cell(r, c2));
                assert(self.cell(r, c2).is_some());
            }
        }
    }

    /// `legal_columns` is empty exactly when no column below `n` accepts a
    /// tile.
    pub proof fn lemma_legal_columns_empty(self, n: int)
        ensures
            self.legal_columns(n).len() == 0 <==> forall|c: int|
                0 <= c < n ==> !#[trigger] self.can_insert(c),
        decreases n,
    {
        if n > 0 {
            self.lemma_legal_columns_empty(n - 1);
        }
    }

    proof fn lemma_column_full_down(self, c: int, r: int)
        requires
            self.wf(),
            0 <= c < COLUMNS,
            0 <= r < ROWS,
            self.column_full(c),
        ensures
            self.cell(r, c).is_some(),
        decreases r,
    {
        if r > 0 {
            self.lemma_column_full_down(c, r - 1);
            assert(self.cell(r - 1, c).is_some());
        }
    }

    /// No move is left exactly when the board is full or the game is won.
    pub proof fn lemma_terminal_iff_full_or_won(self)
        requires
            self.wf(),
        ensures
            self.terminal() <==> (self.is_full() || self.winner.is_some()),
    {
        self.lemma_legal_columns_empty(COLUMNS as int);
        if self.is_full() {
            assert forall|c: int| 0 <= c < COLUMNS implies !#[trigger] self.can_insert(c) by {
                assert(self.cell(0, c).is_some());
            }
        }
        if self.terminal() && self.winner.is_none() {
            assert forall|r: int, c: int| in_bounds(r, c) implies (#[trigger] self.cell(
                r,
                c,
            )).is_some() by {
                assert(!self.can_insert(c));
                self.lemma_column_full_down(c, r);
            }
        }
    }

    /// A column whose cells are all occupied refuses a tile with
    /// `ColumnFull`; no insertion there succeeds.
    pub proof fn lemma_full_column_refused(self, c: int)
        requires
            0 <= c < COLUMNS,
            forall|r: int| 0 <= r < ROWS ==> (#[trigger] self.cell(r, c)).is_some(),
        ensures
            self.insert_error(c) == Some(GameError::ColumnFull),
    {
        assert(self.cell(0, c).is_some());
    }

    /// Once the game is won every insertion is refused, so the board never
    /// changes again; in a column that exists and is not full the refusal is
    /// `GameOver`.
    pub proof fn lemma_no_insert_after_win(self, c: int)
        requires
            self.winner.is_some(),
        ensures
            self.insert_error(c).is_some(),
            0 <= c < COLUMNS && !self.column_full(c) ==> self.insert_error(c) == Some(
                GameError::GameOver,
            ),
    {
    }

    proof fn lemma_free_row_at(self, c: int, j: int, k: int)
        requires
            0 < k <= j < ROWS,
            self.cell(k, c).is_none(),
            forall|r: int| k < r <= j ==> self.cell(r, c).is_some(),
        ensures
            self.free_row_from(c, j) == k,
        decreases j,
    {
        if j > k {
            self.lemma_free_row_at(c, j - 1, k);
        }
    }

    /// Tiles dropped one after another into a column stack up: the tile
    /// lands on the free row, and the next free row is the one above it.
    pub proof fn lemma_gravity_stack(self, c: int)
        requires
            self.wf(),
            self.can_insert(c),
            self.free_row(c) > 0,
        ensures
            self.inserted(c).cell(self.free_row(c), c) == Some(self.turn),
            self.inserted(c).free_row(c) == self.free_row(c) - 1,
    {
        self.lemma_gravity(c);
        let k = self.free_row(c);
        let after = self.inserted(c);
        if self.cell(k - 1, c).is_some() {
            assert(self.cell(k, c).is_some());
        }
        assert(after.cell(k - 1, c) == self.cell(k - 1, c));
        assert forall|r: int| k - 1 < r <= ROWS - 1 implies after.cell(r, c).is_some() by {
            if r > k {
                assert(after.cell(r, c) == self.cell(r, c));
            }
        }
        if k - 1 > 0 {
            after.lemma_free_row_at(c, ROWS - 1, k - 1);
        } else {
            after.lemma_free_row_from_zero(c, ROWS - 1);
        }
    }

    proof fn lemma_free_row_from_zero(self, c: int, j: int)
        requires
            0 <= j < ROWS,
            forall|r: int| 0 < r <= j ==> self.cell(r, c).is_some(),
        ensures
            self.free_row_from(c, j) == 0,
        decreases j,
    {
        if j > 0 {
            self.lemma_free_row_from_zero(c, j - 1);
        }
    }

    proof fn lemma_run_at_least(self, r: int, c: int, dr: int, dc: int, p: Player, n: nat, m: nat)
        requires
            m <= n,
            forall|i: int| 1 <= i <= m ==> #[trigger] self.owned(r + i * dr, c + i * dc, p),
        ensures
            self.run(r, c, dr, dc, p, n) >= m,
        decreases m,
    {
        if m > 0 {
            assert(self.owned(r + 1 * dr, c + 1 * dc, p));
            assert forall|i: int| 1 <= i <= m - 1 implies #[trigger] self.owned(
                (r + dr) + i * dr,
                (c + dc) + i * dc,
                p,
            ) by {
                assert((r + dr) + i * dr == r + (i + 1) * dr) by (nonlinear_arith);
                assert((c + dc) + i * dc == c + (i + 1) * dc) by (nonlinear_arith);
                assert(self.owned(r + (i + 1) * dr, c + (i + 1) * dc, p));
            }
            self.lemma_run_at_least(r + dr, c + dc, dr, dc, p, (n - 1) as nat, (m - 1) as nat);
        }
    }

    /// The three cells other than `(r, c)` of the four consecutive cells
    /// along `(dr, dc)` that start `k` steps behind `(r, c)` hold tiles of
    /// `p`: a tile of `p` at `(r, c)` makes four in a row.
    pub open spec fn completes_line(self, r: int, c: int, dr: int, dc: int, k: int, p: Player) -> bool {
        forall|i: int|
            0 <= i < 4 && i != k ==> #[trigger] self.owned(r + (i - k) * dr, c + (i - k) * dc, p)
    }

    proof fn lemma_run_owned(self, r: int, c: int, dr: int, dc: int, p: Player, n: nat)
        ensures
            forall|i: int|
                1 <= i <= self.run(r, c, dr, dc, p, n) ==> #[trigger] self.owned(
                    r + i * dr,
                    c + i * dc,
                    p,
                ),
        decreases n,
    {
        if n > 0 && self.owned(r + dr, c + dc, p) {
            self.lemma_run_owned(r + dr, c + dc, dr, dc, p, (n - 1) as nat);
            assert forall|i: int| 1 <= i <= self.run(r, c, dr, dc, p, n) implies #[trigger] self.owned(
                r + i * dr,
                c + i * dc,
                p,
            ) by {
                if i > 1 {
                    assert((r + dr) + (i - 1) * dr == r + i * dr) by (nonlinear_arith);
                    assert((c + dc) + (i - 1) * dc == c + i * dc) by (nonlinear_arith);
                    assert(self.owned((r + dr) + (i - 1) * dr, (c + dc) + (i - 1) * dc, p));
                }
            }
        }
    }

    proof fn lemma_axis_line(self, r: int, c: int, dr: int, dc: int, p: Player)
        requires
            self.axis_count(r, c, dr, dc, p) >= 3,
        ensures
            exists|k: int| 0 <= k <= 3 && #[trigger] self.completes_line(r, c, dr, dc, k, p),
    {
        let a = self.run(r, c, dr, dc, p, 3);
        let b = self.run(r, c, -dr, -dc, p, 3);
        self.lemma_run_owned(r, c, dr, dc, p, 3);
        self.lemma_run_owned(r, c, -dr, -dc, p, 3);
        self.lemma_run_bound(r, c, dr, dc, p, 3);
        self.lemma_run_bound(r, c, -dr, -dc, p, 3);
        let k: int = if b >= 3 {
            3
        } else {
            b as int
        };
        assert forall|i: int| 0 <= i < 4 && i != k implies #[trigger] self.owned(
            r + (i - k) * dr,
            c + (i - k) * dc,
            p,
        ) by {
            if i > k {
                assert(1 <= i - k <= a);
            } else {
                assert((k - i) * (-dr) == (i - k) * dr) by (nonlinear_arith);
                assert((k - i) * (-dc) == (i - k) * dc) by (nonlinear_arith);
                assert(1 <= k - i <= b);
                assert(self.owned(r + (k - i) * (-dr), c + (k - i) * (-dc), p));
            }
        }
        assert(self.completes_line(r, c, dr, dc, k, p));
    }

    /// A win comes exactly with four in a row: an insertion makes the mover
    /// the winner if and only if the tile lands as one of four consecutive
    /// cells along an axis whose other three cells already hold the mover's
    /// tiles; otherwise the game stays without a winner.
    pub proof fn lemma_win_iff_four_in_line(self, c: int)
        requires
            self.sized(),
            self.can_insert(c),
        ensures
            self.inserted(c).winner == Some(self.turn) <==> exists|dr: int, dc: int, k: int|
                is_axis(dr, dc) && 0 <= k <= 3 && #[trigger] self.completes_line(
                    self.free_row(c),
                    c,
                    dr,
                    dc,
                    k,
                    self.turn,
                ),
            self.inserted(c).winner != Some(self.turn) ==> self.inserted(c).winner.is_none(),
    {
        let r = self.free_row(c);
        let p = self.turn;
        if self.wins_at(r, c, p) {
            if self.axis_count(r, c, 0, 1, p) >= 3 {
                self.lemma_axis_line(r, c, 0, 1, p);
                let k = choose|k: int| 0 <= k <= 3 && #[trigger] self.completes_line(r, c, 0, 1, k, p);
                assert(is_axis(0, 1));
            } else if self.axis_count(r, c, 1, 0, p) >= 3 {
                self.lemma_axis_line(r, c, 1, 0, p);
                let k = choose|k: int| 0 <= k <= 3 && #[trigger] self.completes_line(r, c, 1, 0, k, p);
                assert(is_axis(1, 0));
            } else if self.axis_count(r, c, -1, 1, p) >= 3 {
                self.lemma_axis_line(r, c, -1, 1, p);
                let k = choose|k: int|
                    0 <= k <= 3 && #[trigger] self.completes_line(r, c, -1, 1, k, p);
                assert(is_axis(-1, 1));
            } else {
                self.lemma_axis_line(r, c, 1, 1, p);
                let k = choose|k: int| 0 <= k <= 3 && #[trigger] self.completes_line(r, c, 1, 1, k, p);
                assert(is_axis(1, 1));
            }
        }
        if exists|dr: int, dc: int, k: int|
            is_axis(dr, dc) && 0 <= k <= 3 && #[trigger] self.completes_line(r, c, dr, dc, k, p) {
            let (dr, dc, k) = choose|dr: int, dc: int, k: int|
                is_axis(dr, dc) && 0 <= k <= 3 && #[trigger] self.completes_line(r, c, dr, dc, k, p);
            self.lemma_four_in_line_wins(c, dr, dc, k);
        }
    }

    /// Four in a row wins: when the mover's tile lands at one of four
    /// consecutive cells along an axis `(dr, dc)` (horizontal `(0, 1)`,
    /// vertical `(1, 0)`, rising `(-1, 1)` or falling `(1, 1)`), the other
    /// three of which already hold the mover's tiles, the mover becomes the
    /// winner with that tile. The line runs from `k` steps behind the
    /// landing cell to `3 - k` steps ahead of it.
    pub proof fn lemma_four_in_line_wins(self, c: int, dr: int, dc: int, k: int)
        requires
            self.sized(),
            self.can_insert(c),
            is_axis(dr, dc),
            0 <= k <= 3,
            self.completes_line(self.free_row(c), c, dr, dc, k, self.turn),
        ensures
            self.inserted(c).winner == Some(self.turn),
    {
        let r = self.free_row(c);
        let p = self.turn;
        assert forall|i: int| 1 <= i <= 3 - k implies #[trigger] self.owned(
            r + i * dr,
            c + i * dc,
            p,
        ) by {
            assert(((k + i) - k) * dr == i * dr) by (nonlinear_arith);
            assert(((k + i) - k) * dc == i * dc) by (nonlinear_arith);
            assert(self.owned(r + ((k + i) - k) * dr, c + ((k + i) - k) * dc, p));
        }
        assert forall|i: int| 1 <= i <= k implies #[trigger] self.owned(
            r + i * (-dr),
            c + i * (-dc),
            p,
        ) by {
            assert(((k - i) - k) * dr == i * (-dr)) by (nonlinear_arith);
            assert(((k - i) - k) * dc == i * (-dc)) by (nonlinear_arith);
            assert(self.owned(r + ((k - i) - k) * dr, c + ((k - i) - k) * dc, p));
        }
        self.lemma_run_at_least(r, c, dr, dc, p, 3, (3 - k) as nat);
        self.lemma_run_at_least(r, c, -dr, -dc, p, 3, k as nat);
        assert(self.axis_count(r, c, dr, dc, p) >= 3);
    }

    /// `b` follows from this board by exactly `n` successful insertions.
    pub open spec fn reaches(self, b: BoardView, n: nat) -> bool
        decreases n,
    {
        if n == 0 {
            self == b
        } else {
            exists|c: int| #[trigger]
                self.can_insert(c) && self.inserted(c).reaches(b, (n - 1) as nat)
        }
    }

    /// One more insertion extends a sequence of insertions.
    pub proof fn lemma_reaches_extend(self, b: BoardView, n: nat, c: int)
        requires
            self.reaches(b, n),
            b.can_insert(c),
        ensures
            self.reaches(b.inserted(c), n + 1),
        decreases n,
    {
        if n == 0 {
            assert(self.can_insert(c) && self.inserted(c).reaches(b.inserted(c), 0));
        } else {
            let c0 = choose|c0: int|
                #[trigger] self.can_insert(c0) && self.inserted(c0).reaches(b, (n - 1) as nat);
            self.inserted(c0).lemma_reaches_extend(b, (n - 1) as nat, c);
            assert(self.can_insert(c0) && self.inserted(c0).reaches(b.inserted(c), n));
        }
    }

    /// From a board with no move left, only that board is reached.
    pub proof fn lemma_reaches_from_terminal(self, b: BoardView, n: nat)
        requires
            self.terminal(),
            self.reaches(b, n),
        ensures
            b == self,
    {
        self.lemma_legal_columns_empty(COLUMNS as int);
        if n > 0 {
            let c = choose|c: int|
                #[trigger] self.can_insert(c) && self.inserted(c).reaches(b, (n - 1) as nat);
            assert(false);
        }
    }

    /// No move is left: the board is full or the game is won.
    pub open spec fn terminal(self) -> bool {
        self.legal_columns(COLUMNS as int).len() == 0
    }
}

impl GridState {
    /// An empty board with Yellow to move.
    pub fn new() -> (r: GridState)
        ensures
            r@ == empty_board(),
            r@.wf(),
    {
        let r = GridState { grid: [None; 54], turn: Player::Yellow, winner: None };
        assert(r@.cells =~= empty_board().cells);
        r
    }

    pub proof fn lemma_sized(&self)
        ensures
            self@.sized(),
    {
    }

    /// Drops a tile of the mover into `column`. On success the tile rests on
    /// the lowest empty cell of the column, the winner is set if it completes
    /// four in a row, and the turn passes; on failure nothing changes.
    pub fn insert(&mut self, column: usize) -> (r: Result<(), GameError>)
        ensures
            match old(self)@.insert_error(column as int) {
                Some(e) => r == Err::<(), GameError>(e) && final(self)@ == old(self)@,
                None => r == Ok::<(), GameError>(()) && final(self)@ == old(self)@.inserted(
                    column as int,
                ),
            },
            old(self)@.wf() ==> final(self)@.wf(),
    {
        proof {
            self.lemma_sized();
        }
        if column >= COLUMNS {
            return Err(GameError::InvalidColumn);
        }
        if self.grid[column].is_some() {
            return Err(GameError::ColumnFull);
        }
        if self.winner.is_some() {
            return Err(GameError::GameOver);
        }
        let ghost before = self@;
        let mut free: usize = 0;
        let mut j: usize = ROWS - 1;
        while j > 0
            invariant_except_break
                free == 0,
            invariant
                j < ROWS,
                column < COLUMNS,
                self@ == before,
                before.sized(),
                before.free_row_from(column as int, j as int) == before.free_row(column as int),
            ensures
                free == before.free_row(column as int),
            decreases j,
        {
            if self.grid[j * COLUMNS + column].is_none() {
                free = j;
                break;
            }
            j = j - 1;
        }
        proof {
            before.lemma_gravity(column as int);
        }
        let won = self.check_winner(free, column);
        let mover = self.turn;
        self.grid[free * COLUMNS + column] = Some(mover);
        if won {
            self.winner = Some(mover);
        }
        self.turn = mover.other();
        proof {
            if before.wf() {
                before.lemma_inserted_wf(column as int);
            }
        }
        Ok(())
    }

    /// Every legal move from this board, one for each column that accepts
    /// a tile, in ascending column order. Each move holds a copy of this
    /// board and, separately, the board after the insertion.
    pub fn get_moves(&self) -> (moves: Vec<GameMove>)
        ensures
            moves@.len() == self@.legal_columns(COLUMNS as int).len(),
            forall|k: int|
                0 <= k < moves@.len() ==> (#[trigger] moves@[k]).previous@ == self@
                    && moves@[k].next@ == self@.inserted(self@.legal_columns(COLUMNS as int)[k]),
    {
        let mut moves: Vec<GameMove> = Vec::new();
        for i in 0..COLUMNS
            invariant
                moves@.len() == self@.legal_columns(i as int).len(),
                forall|k: int|
                    0 <= k < moves@.len() ==> (#[trigger] moves@[k]).previous@ == self@
                        && moves@[k].next@ == self@.inserted(self@.legal_columns(i as int)[k]),
        {
            let previous = *self;
            let mut next = *self;
            if next.insert(i).is_ok() {
                moves.push(GameMove { previous, next });
            }
        }
        moves
    }

    /// The content of the cell at `(row, col)`.
    pub fn cell(&self, row: usize, col: usize) -> (r: Option<Player>)
        requires
            row < ROWS,
            col < COLUMNS,
        ensures
            r == self@.cell(row as int, col as int),
    {
        proof {
            self.lemma_sized();
        }
        self.grid[row * COLUMNS + col]
    }

    /// The characters that draw row `row`, from left to right.
    pub fn row_markers(&self, row: usize) -> (s: Vec<char>)
        requires
            row < ROWS,
        ensures
            s@.len() == COLUMNS,
            forall|c: int| 0 <= c < COLUMNS ==> s@[c] == marker_of(self@.cell(row as int, c)),
    {
        let mut s: Vec<char> = Vec::new();
        for c in 0..COLUMNS
            invariant
                row < ROWS,
                s@.len() == c,
                forall|j: int| 0 <= j < c ==> s@[j] == marker_of(self@.cell(row as int, j)),
        {
            let m = match self.cell(row, c) {
                None => '_',
                Some(Player::Yellow) => 'Y',
                Some(Player::Red) => 'R',
            };
            s.push(m);
        }
        s
    }

    /// The number of legal moves from this board.
    pub fn move_count(&self) -> (n: usize)
        ensures
            n == self@.legal_columns(COLUMNS as int).len(),
    {
        proof {
            self.lemma_sized();
        }
        let mut n: usize = 0;
        for c in 0..COLUMNS
            invariant
                self@.sized(),
                n == self@.legal_columns(c as int).len(),
                n <= c,
        {
            if self.grid[c].is_none() && self.winner.is_none() {
                n = n + 1;
            }
        }
        n
    }

    /// The player to move.
    pub fn get_turn(&self) -> (r: Player)
        ensures
            r == self@.turn,
    {
        self.turn
    }

    /// The winner, once there is one.
    pub fn get_winner(&self) -> (r: Option<Player>)
        ensures
            r == self@.winner,
    {
        self.winner
    }

    /// The number of tiles of `p` met without a gap walking from
    /// `(row, col)` in direction `(dr, dc)`, at most three.
    fn count_run(&self, row: usize, col: usize, dr: isize, dc: isize, p: Player) -> (n: u8)
        requires
            self@.sized(),
            row < ROWS,
            col < COLUMNS,
            -1 <= dr <= 1,
            -1 <= dc <= 1,
        ensures
            n == self@.run(row as int, col as int, dr as int, dc as int, p, 3),
    {
        let mut n: u8 = 0;
        let mut r: isize = row as isize;
        let mut c: isize = col as isize;
        while n < 3
            invariant
                self@.sized(),
                n <= 3,
                0 <= r < ROWS,
                0 <= c < COLUMNS,
                -1 <= dr <= 1,
                -1 <= dc <= 1,
                row < ROWS,
                col < COLUMNS,
                n + self@.run(r as int, c as int, dr as int, dc as int, p, (3 - n) as nat)
                    == self@.run(row as int, col as int, dr as int, dc as int, p, 3),
            ensures
                n == self@.run(row as int, col as int, dr as int, dc as int, p, 3),
            decreases 3 - n,
        {
            let nr: isize = r + dr;
            let nc: isize = c + dc;
            if nr < 0 || nr >= ROWS as isize || nc < 0 || nc >= COLUMNS as isize {
                break;
            }
            let same = match self.grid[(nr as usize) * COLUMNS + nc as usize] {
                Some(q) => q == p,
                None => false,
            };
            if !same {
                break;
            }
            n = n + 1;
            r = nr;
            c = nc;
        }
        n
    }

    /// Whether the mover, dropping a tile at `(row, col)`, completes four
    /// in a row along some axis.
    fn check_winner(&self, row: usize, col: usize) -> (b: bool)
        requires
            self@.sized(),
            row < ROWS,
            col < COLUMNS,
        ensures
            b == self@.wins_at(row as int, col as int, self.turn),
    {
        let p = self.turn;
        proof {
            let v = self@;
            let (r, c) = (row as int, col as int);
            v.lemma_run_bound(r, c, 0, 1, p, 3);
            v.lemma_run_bound(r, c, 0, -1, p, 3);
            v.lemma_run_bound(r, c, 1, 0, p, 3);
            v.lemma_run_bound(r, c, -1, 0, p, 3);
            v.lemma_run_bound(r, c, -1, 1, p, 3);
            v.lemma_run_bound(r, c, 1, -1, p, 3);
            v.lemma_run_bound(r, c, 1, 1, p, 3);
            v.lemma_run_bound(r, c, -1, -1, p, 3);
        }
        let horizontal = self.count_run(row, col, 0, 1, p) + self.count_run(row, col, 0, -1, p);
        let vertical = self.count_run(row, col, 1, 0, p) + self.count_run(row, col, -1, 0, p);
        let rising = self.count_run(row, col, -1, 1, p) + self.count_run(row, col, 1, -1, p);
        let falling = self.count_run(row, col, 1, 1, p) + self.count_run(row, col, -1, -1, p);
        horizontal >= 3 || vertical >= 3 || rising >= 3 || falling >= 3
    }
}

} // verus!

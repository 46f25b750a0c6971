//! The turn-taking state machine: moves, undo, and the outcome.
use vstd::prelude::*;
use crate::bitboard::words_for;
use crate::board::{Board, BoardView};
use crate::geometry::{lemma_cell, lemma_cell_bound, lemma_split, BoardGeometry};
use crate::moves::Move;
use crate::outcome::GameOutcome;
use crate::player::Player;
use crate::position::Position;

verus! {

/// What a game holds: the board, whose turn it is, the moves played, and
/// how the game ended, if it has.
pub ghost struct GameView {
    pub board: BoardView,
    pub turn: Player,
    pub history: Seq<Move>,
    pub is_over: bool,
    pub outcome: Option<GameOutcome>,
}

impl BoardView {
    /// The row where a piece dropped into column `c` lands: that of the
    /// lowest empty cell of the column.
    pub open spec fn landing_row(self, c: int) -> int {
        choose|row: int|
            0 <= row < self.height && #[trigger] self.is_lowest_empty(c, row * self.width + c)
    }

    /// The moves that fill a non-full column, for the columns below `n`, in
    /// column order; each lands at the column's height.
    pub open spec fn open_moves(self, n: int) -> Seq<Move>
        decreases n,
    {
        if n <= 0 {
            Seq::empty()
        } else if self.column_full(n - 1) {
            self.open_moves(n - 1)
        } else {
            self.open_moves(n - 1).push(Move { col: (n - 1) as u8, row: self.column_height(n - 1) as u8 })
        }
    }
}

impl GameView {
    /// The board is well formed, the outcome is set exactly when the game is
    /// over, and every move played lies on the board.
    pub open spec fn wf(self) -> bool {
        &&& self.board.wf()
        &&& self.is_over == self.outcome is Some
        &&& forall|k: int|
            0 <= k < self.history.len() ==> (#[trigger] self.history[k]).col < self.board.width
                && self.history[k].row < self.board.height
    }

    /// The game is running, the column is on the board and not full, and the
    /// row is the column's height.
    pub open spec fn is_legal(self, m: Move) -> bool {
        &&& !self.is_over
        &&& m.col < self.board.width
        &&& !self.board.column_full(m.col as int)
        &&& m.row == self.board.column_height(m.col as int)
    }

    /// The game after the player to move drops a piece into column `c`: the
    /// move is recorded where it landed, the mover's win or a full board ends
    /// the game, and the turn passes.
    pub open spec fn after_move(self, c: int) -> GameView {
        let row = self.board.landing_row(c);
        let b = self.board.with_piece(row * self.board.width + c, Some(self.turn));
        let won = b.has_won(self.turn);
        let full = b.board_full();
        GameView {
            board: b,
            turn: self.turn.other(),
            history: self.history.push(Move { col: c as u8, row: row as u8 }),
            is_over: won || full,
            outcome: if won {
                Some(GameOutcome::win_for(self.turn))
            } else if full {
                Some(GameOutcome::Draw)
            } else {
                None
            },
        }
    }

    /// The game with the last move taken back: its cell emptied, the game
    /// running again, and the turn passed back.
    pub open spec fn undo(self) -> GameView {
        let m = self.history.last();
        GameView {
            board: self.board.with_piece(m.row * self.board.width + m.col, None),
            turn: self.turn.other(),
            history: self.history.drop_last(),
            is_over: false,
            outcome: None,
        }
    }

    /// The legal moves: none once the game is over, else one per non-full
    /// column, at the column's height.
    pub open spec fn legal_moves(self) -> Seq<Move> {
        if self.is_over {
            Seq::empty()
        } else {
            self.board.open_moves(self.board.width)
        }
    }
}

/// Of two cells of one column, the lowest empty one is the same.
proof fn lemma_landing_unique(b: BoardView, c: int, row: int)
    requires
        b.wf(),
        0 <= row < b.height,
        0 <= c < b.width,
        b.is_lowest_empty(c, row * b.width + c),
    ensures
        b.landing_row(c) == row,
{
    let other = b.landing_row(c);
    let i = row * b.width + c;
    let j = other * b.width + c;
    assert(0 <= other < b.height && b.is_lowest_empty(c, j));
    if other < row {
        assert(j < i) by (nonlinear_arith)
            requires
                other < row,
                b.width > 0,
                j == other * b.width + c,
                i == row * b.width + c,
        ;
    } else if other > row {
        assert(i < j) by (nonlinear_arith)
            requires
                other > row,
                b.width > 0,
                j == other * b.width + c,
                i == row * b.width + c,
        ;
    }
}

/// A column whose cell in row `row` is empty has a lowest empty cell, at or
/// below that row.
proof fn lemma_landing_exists(b: BoardView, c: int, row: int)
    requires
        b.wf(),
        0 <= row < b.height,
        0 <= c < b.width,
        !b.occupied().contains(row * b.width + c),
    ensures
        0 <= b.landing_row(c) <= row,
        b.is_lowest_empty(c, b.landing_row(c) * b.width + c),
    decreases row,
{
    let w = b.width;
    let i = row * w + c;
    lemma_cell(w, row, c);
    lemma_cell_bound(w, b.height, row, c);
    if forall|j: int| #[trigger] b.column(c).contains(j) && j < i ==> b.occupied().contains(j) {
        assert(b.is_lowest_empty(c, i));
        lemma_landing_unique(b, c, row);
    } else {
        let j = choose|j: int| #[trigger] b.column(c).contains(j) && j < i && !b.occupied().contains(j);
        lemma_split(j, w);
        let r2 = j / w;
        if r2 >= row {
            assert(r2 * w >= row * w) by (nonlinear_arith)
                requires
                    r2 >= row,
                    w > 0,
            ;
        }
        if r2 < 0 {
            assert(r2 * w <= -w) by (nonlinear_arith)
                requires
                    r2 < 0,
                    w > 0,
            ;
        }
        lemma_landing_exists(b, c, r2);
    }
}

/// Undoing a move just made restores the game: board, turn, history and
/// outcome.
pub proof fn lemma_unmake_after_make(g: GameView, m: Move)
    requires
        g.wf(),
        g.is_legal(m),
    ensures
        g.after_move(m.col as int).undo() == g,
{
    let b = g.board;
    let c = m.col as int;
    let w = b.width;
    lemma_cell_bound(w, b.height, b.height - 1, c);
    lemma_landing_exists(b, c, b.height - 1);
    let row = b.landing_row(c);
    let i = row * w + c;
    let after = g.after_move(c);
    assert(after.history.last() == Move { col: c as u8, row: row as u8 });
    assert(after.history.drop_last() =~= g.history);
    let back = after.undo();
    assert(back.board.red =~= b.red);
    assert(back.board.yellow =~= b.yellow);
    assert(back.board == b);
}

/// A column filled to the top is full, no move into it is legal, and no legal
/// move names it.
pub proof fn lemma_full_column_closed(g: GameView, c: int)
    requires
        g.wf(),
        0 <= c < g.board.width,
        g.board.column(c).subset_of(g.board.occupied()),
    ensures
        g.board.column_full(c),
        forall|m: Move| m.col == c ==> !g.is_legal(m),
        forall|k: int| 0 <= k < g.legal_moves().len() ==> (#[trigger] g.legal_moves()[k]).col != c,
{
    let b = g.board;
    lemma_cell_bound(b.width, b.height, b.height - 1, c);
    lemma_cell(b.width, b.height - 1, c);
    assert(b.column(c).contains((b.height - 1) * b.width + c));
    lemma_open_moves_columns(b, b.width);
}

/// Every move of `open_moves(n)` names a non-full column below `n`, at its
/// height.
pub proof fn lemma_open_moves_columns(b: BoardView, n: int)
    requires
        b.wf(),
        n <= b.width,
    ensures
        forall|k: int|
            0 <= k < b.open_moves(n).len() ==> {
                let m = #[trigger] b.open_moves(n)[k];
                &&& m.col < n
                &&& !b.column_full(m.col as int)
                &&& m.row == b.column_height(m.col as int) as u8
            },
    decreases n,
{
    if n > 0 {
        lemma_open_moves_columns(b, n - 1);
        let prev = b.open_moves(n - 1);
        assert forall|k: int| 0 <= k < b.open_moves(n).len() implies {
            let m = #[trigger] b.open_moves(n)[k];
            &&& m.col < n
            &&& !b.column_full(m.col as int)
            &&& m.row == b.column_height(m.col as int) as u8
        } by {
            if k < prev.len() {
                assert(b.open_moves(n)[k] == prev[k]);
            }
        }
    }
}

/// A game of Connect Four on a `width × height` board.
#[derive(Clone, Debug)]
pub struct Game<const NW: usize> {
    board: Board<NW>,
    geo: BoardGeometry<NW>,
    current_player: Player,
    move_history: Vec<Move>,
    is_over: bool,
    outcome: Option<GameOutcome>,
}

impl<const NW: usize> View for Game<NW> {
    type V = GameView;

    closed spec fn view(&self) -> GameView {
        GameView {
            board: self.board@,
            turn: self.current_player,
            history: self.move_history@,
            is_over: self.is_over,
            outcome: self.outcome,
        }
    }
}

impl<const NW: usize> Game<NW> {
    /// The game is well formed, and its geometry matches its board.
    pub open spec fn wf(&self) -> bool {
        &&& self@.wf()
        &&& self.parts_fit()
    }

    /// The board fits its words, and the geometry matches the board.
    pub closed spec fn parts_fit(&self) -> bool {
        &&& self.board.wf()
        &&& self.board.fits(&self.geo)
    }

    /// A new game on an empty `width × height` board, Red to move.
    pub fn new(width: u8, height: u8) -> (r: Self)
        requires
            2 <= width <= 32,
            2 <= height <= 32,
            NW == words_for(width as int * height as int),
        ensures
            r.wf(),
            r@.board.width == width,
            r@.board.height == height,
            r@.board.red == Set::<int>::empty(),
            r@.board.yellow == Set::<int>::empty(),
            r@.turn == Player::Red,
            r@.history == Seq::<Move>::empty(),
            !r@.is_over,
            r@.outcome is None,
    {
        proof {
            assert(width as int * height as int <= 1024) by (nonlinear_arith)
                requires
                    0 <= width <= 32,
                    0 <= height <= 32,
            ;
        }
        let geo = BoardGeometry::new(width, height);
        let r = Game {
            board: Board::new(width, height),
            geo,
            current_player: Player::Red,
            move_history: Vec::new(),
            is_over: false,
            outcome: None,
        };
        r
    }

    pub fn width(&self) -> (r: u8)
        ensures
            r == self@.board.width,
    {
        self.board.width()
    }

    pub fn height(&self) -> (r: u8)
        ensures
            r == self@.board.height,
    {
        self.board.height()
    }

    /// The host integer of the piece at `pos`, if any.
    pub fn get_piece(&self, pos: &Position) -> (r: Option<i8>)
        requires
            self.wf(),
        ensures
            r == (if pos.col < self@.board.width && pos.row < self@.board.height {
                match self@.board.piece_at(pos.index_of(self@.board.width)) {
                    Some(p) => Some(p.int_of()),
                    None => None::<i8>,
                }
            } else {
                None
            }),
    {
        match self.board.get_piece(pos) {
            Some(p) => Some(p.to_int()),
            None => None,
        }
    }

    /// Put a piece on `pos` (or empty it), ignoring gravity; the turn, the
    /// history and the outcome are left as they are.
    pub fn set_piece(&mut self, pos: &Position, player: Option<Player>)
        requires
            old(self).wf(),
        ensures
            final(self).wf(),
            final(self)@ == (GameView {
                board: if pos.col < old(self)@.board.width && pos.row < old(self)@.board.height {
                    old(self)@.board.with_piece(pos.index_of(old(self)@.board.width), player)
                } else {
                    old(self)@.board
                },
                ..old(self)@
            }),
    {
        self.board.set_piece(pos, player)
    }

    pub fn board(&self) -> (r: &Board<NW>)
        requires
            self.wf(),
        ensures
            r@ == self@.board,
            r.wf(),
            r.fits(&self.geometry()),
    {
        &self.board
    }

    /// The geometry the game was built with.
    pub closed spec fn geometry(&self) -> BoardGeometry<NW> {
        self.geo
    }

    pub fn geo(&self) -> (r: &BoardGeometry<NW>)
        ensures
            *r == self.geometry(),
            self.wf() ==> r.wf() && r.width == self@.board.width && r.height == self@.board.height,
    {
        &self.geo
    }

    /// The player to move (for a finished game, the one who would move next).
    pub fn turn(&self) -> (r: Player)
        ensures
            r == self@.turn,
    {
        self.current_player
    }

    pub fn is_over(&self) -> (r: bool)
        ensures
            r == self@.is_over,
    {
        self.is_over
    }

    pub fn outcome(&self) -> (r: Option<GameOutcome>)
        ensures
            r == self@.outcome,
    {
        self.outcome
    }

    /// The moves played, oldest first, each where its piece landed.
    pub fn move_history(&self) -> (r: &[Move])
        ensures
            r@ == self@.history,
    {
        self.move_history.as_slice()
    }

    /// One move per non-full column, at the column's height; none once the
    /// game is over.
    pub fn legal_moves(&self) -> (r: Vec<Move>)
        requires
            self.wf(),
        ensures
            r@ == self@.legal_moves(),
    {
        if self.is_over {
            return Vec::new();
        }
        let mut moves: Vec<Move> = Vec::new();
        let mut col: u8 = 0;
        while col < self.board.width()
            invariant
                self.wf(),
                !self.is_over,
                col <= self@.board.width,
                moves@ == self@.board.open_moves(col as int),
            decreases self@.board.width - col,
        {
            if !self.board.is_column_full(col, &self.geo) {
                let row = self.board.column_height(col, &self.geo);
                moves.push(Move::new(col, row));
            }
            col += 1;
        }
        moves
    }

    /// Whether `move_` is legal: the game is running, its column is on the
    /// board and not full, and its row is the column's height.
    pub fn is_legal_move(&self, move_: &Move) -> (r: bool)
        requires
            self.wf(),
        ensures
            r == self@.is_legal(*move_),
    {
        if self.is_over {
            return false;
        }
        if move_.col >= self.board.width() {
            return false;
        }
        !self.board.is_column_full(move_.col, &self.geo) && move_.row == self.board.column_height(
            move_.col,
            &self.geo,
        )
    }

    /// Play `move_` for the player to move, if it is legal: the piece drops
    /// into its column, a win or a full board ends the game, and the turn
    /// passes. Returns whether the move was played; an illegal one leaves the
    /// game unchanged.
    pub fn make_move(&mut self, move_: &Move) -> (r: bool)
        requires
            old(self).wf(),
        ensures
            final(self).wf(),
            r == old(self)@.is_legal(*move_),
            r ==> final(self)@ == old(self)@.after_move(move_.col as int),
            !r ==> final(self)@ == old(self)@,
    {
        if !self.is_legal_move(move_) {
            return false;
        }
        proof {
            let b = self@.board;
            let c = move_.col as int;
            lemma_cell_bound(b.width, b.height, b.height - 1, c);
            lemma_cell(b.width, b.height - 1, c);
            assert(b.column(c).contains((b.height - 1) * b.width + c));
        }
        let ghost before = self@;
        let player = self.current_player;
        match self.board.drop_piece(move_.col, player, &self.geo) {
            Some(row) => {
                proof {
                    lemma_landing_unique(before.board, move_.col as int, row as int);
                }
                self.move_history.push(Move::new(move_.col, row));
                if self.board.check_win(player, &self.geo) {
                    self.is_over = true;
                    self.outcome = Some(GameOutcome::win(player));
                } else if self.board.is_board_full(&self.geo) {
                    self.is_over = true;
                    self.outcome = Some(GameOutcome::Draw);
                }
                self.current_player = player.opposite();
                proof {
                    assert(self@.history =~= before.after_move(move_.col as int).history);
                }
                true
            },
            None => false,
        }
    }

    /// Take back the last move: empty its cell, clear the outcome, and pass
    /// the turn back. Returns false, changing nothing, when no move was played.
    pub fn unmake_move(&mut self) -> (r: bool)
        requires
            old(self).wf(),
        ensures
            final(self).wf(),
            r == (old(self)@.history.len() > 0),
            r ==> final(self)@ == old(self)@.undo(),
            !r ==> final(self)@ == old(self)@,
    {
        let ghost before = self@;
        match self.move_history.pop() {
            Some(last_move) => {
                proof {
                    assert(before.history[before.history.len() - 1] == last_move);
                }
                let pos = Position::new(last_move.col, last_move.row);
                self.board.set_piece(&pos, None);
                self.is_over = false;
                self.outcome = None;
                self.current_player = self.current_player.opposite();
                true
            },
            None => false,
        }
    }
}

} // verus!

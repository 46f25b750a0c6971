//! Input planes for a learning system, and the move ↔ action codec.
use vstd::prelude::*;
use crate::board::{Board, BoardView};
use crate::game::{Game, GameView};
use crate::geometry::{lemma_cell, lemma_cell_bound, lemma_column_len};
use crate::moves::Move;
use crate::player::Player;
use crate::position::Position;

verus! {

/// Planes per position: the mover's stones and the opponent's.
pub const PIECE_PLANES: usize = 2;

/// Positions of history encoded, the current one included.
pub const HISTORY_LENGTH: usize = 8;

/// Planes that hold one value each: the colour of the player to move.
pub const CONSTANT_PLANES: usize = 1;

/// Total number of input planes.
pub const TOTAL_INPUT_PLANES: usize = HISTORY_LENGTH * PIECE_PLANES + CONSTANT_PLANES;

/// How many moves back the history planes reach.
pub open spec fn history_depth(g: GameView) -> int {
    if g.history.len() < HISTORY_LENGTH - 1 {
        g.history.len() as int
    } else {
        HISTORY_LENGTH - 1
    }
}

/// The board `t` moves back: the cells of the last `t` moves emptied.
pub open spec fn board_back(g: GameView, t: nat) -> BoardView
    decreases t,
{
    if t == 0 {
        g.board
    } else {
        let m = g.history[g.history.len() - t];
        board_back(g, (t - 1) as nat).with_piece(m.row * g.board.width + m.col, None)
    }
}

/// Value of cell `i` of plane `p`. Planes `2t` and `2t + 1` hold the stones
/// of the player to move and of the opponent `t` moves back (all zero when
/// the game is shorter); the last plane is 1 when Red is to move, else 0.
pub open spec fn plane_value(g: GameView, p: int, i: int) -> u8 {
    if p == 2 * HISTORY_LENGTH {
        if g.turn == Player::Red {
            1
        } else {
            0
        }
    } else if p / 2 <= history_depth(g) {
        let who = if p % 2 == 0 {
            g.turn
        } else {
            g.turn.other()
        };
        if board_back(g, (p / 2) as nat).stones(who).contains(i) {
            1
        } else {
            0
        }
    } else {
        0
    }
}

/// All planes, one after the other, each `height × width` in row-major order.
pub open spec fn encoding(g: GameView) -> Seq<u8> {
    let area = g.board.area();
    Seq::new((TOTAL_INPUT_PLANES * area) as nat, |k: int| plane_value(g, k / area, k % area))
}

/// The move that action `action` stands for: a drop into that column at its
/// height, while the column is on the board and below the top.
pub open spec fn decoded(g: GameView, action: int) -> Option<Move> {
    if action < g.board.width && g.board.column_height(action) < g.board.height {
        Some(Move { col: action as u8, row: g.board.column_height(action) as u8 })
    } else {
        None
    }
}

/// Append one plane: 1 where `who` has a stone on `board` (if `active`), else 0.
fn push_plane<const NW: usize>(
    data: &mut Vec<u8>,
    board: &Board<NW>,
    who: Player,
    active: bool,
    area: usize,
)
    requires
        board.wf(),
        area == board@.area(),
        old(data).len() + area <= usize::MAX,
    ensures
        final(data)@ == old(data)@ + Seq::new(
            area as nat,
            |i: int|
                if active && board@.stones(who).contains(i) {
                    1u8
                } else {
                    0u8
                },
        ),
{
    let stones = board.stones_for(who);
    let ghost start = data@;
    let mut i: usize = 0;
    while i < area
        invariant
            i <= area,
            board.wf(),
            area == board@.area(),
            stones@ == board@.stones(who),
            data@ == start + Seq::new(
                i as nat,
                |j: int|
                    if active && board@.stones(who).contains(j) {
                        1u8
                    } else {
                        0u8
                    },
            ),
        decreases area - i,
    {
        let v: u8 = if active && stones.get(i) {
            1
        } else {
            0
        };
        data.push(v);
        i += 1;
        proof {
            assert(data@ =~= start + Seq::new(
                i as nat,
                |j: int|
                    if active && board@.stones(who).contains(j) {
                        1u8
                    } else {
                        0u8
                    },
            ));
        }
    }
    proof {
        assert(Seq::new(
            i as nat,
            |j: int|
                if active && board@.stones(who).contains(j) {
                    1u8
                } else {
                    0u8
                },
        ) =~= Seq::new(
            area as nat,
            |j: int|
                if active && board@.stones(who).contains(j) {
                    1u8
                } else {
                    0u8
                },
        ));
    }
}

/// Appending plane `p` to the first `p` planes gives the first `p + 1`.
proof fn lemma_next_plane(g: GameView, data: Seq<u8>, p: int, plane: Seq<u8>)
    requires
        g.board.wf(),
        0 <= p,
        data =~= Seq::new((p * g.board.area()) as nat, |k: int| plane_value(g, k / g.board.area(), k % g.board.area())),
        plane.len() == g.board.area(),
        forall|i: int| 0 <= i < g.board.area() ==> plane[i] == plane_value(g, p, i),
    ensures
        data + plane =~= Seq::new(((p + 1) * g.board.area()) as nat, |k: int| plane_value(g, k / g.board.area(), k % g.board.area())),
{
    let area = g.board.area();
    assert(area > 0) by (nonlinear_arith)
        requires
            g.board.width >= 2,
            g.board.height >= 2,
            area == g.board.width * g.board.height,
    ;
    assert((p + 1) * area == p * area + area) by (nonlinear_arith);
    assert(p * area >= 0) by (nonlinear_arith)
        requires
            p >= 0,
            area > 0,
    ;
    assert forall|k: int| p * area <= k < (p + 1) * area implies (data + plane)[k] == plane_value(g, k / area, k % area) by {
        lemma_cell(area, p, k - p * area);
    }
}

/// Encode `game` as `TOTAL_INPUT_PLANES` planes of `height × width` values:
/// the current position and up to `HISTORY_LENGTH - 1` earlier ones, each as
/// the stones of the player to move and of the opponent, then the colour of
/// the player to move. Returns the values with the plane count, height and
/// width. The game is left as it was.
pub fn encode_game_planes<const NW: usize>(game: &mut Game<NW>) -> (r: (Vec<u8>, usize, usize, usize))
    requires
        old(game).wf(),
    ensures
        final(game)@ == old(game)@,
        final(game).wf(),
        r.0@ == encoding(old(game)@),
        r.1 == TOTAL_INPUT_PLANES,
        r.2 == old(game)@.board.height,
        r.3 == old(game)@.board.width,
{
    let ghost g = game@;
    let perspective = game.turn();
    let opponent = perspective.opposite();
    let width = game.width() as usize;
    let height = game.height() as usize;
    let num_planes = TOTAL_INPUT_PLANES;
    proof {
        assert(width * height <= 1024) by (nonlinear_arith)
            requires
                2 <= width <= 32,
                2 <= height <= 32,
        ;
        assert(height * width == width * height) by (nonlinear_arith);
    }
    let board_size = height * width;
    let history = game.move_history();
    let history_len = history.len();
    let steps_back: usize = if HISTORY_LENGTH - 1 < history_len {
        HISTORY_LENGTH - 1
    } else {
        history_len
    };

    let mut data: Vec<u8> = Vec::new();
    let mut board = *game.board();
    let mut t: usize = 0;
    assert(2 * t * board_size == 0) by (nonlinear_arith)
        requires
            t == 0,
    ;
    assert(data@ =~= Seq::new((2 * t * board_size) as nat, |k: int| plane_value(g, k / g.board.area(), k % g.board.area())));
    while t < HISTORY_LENGTH
        invariant
            game@ == g,
            g.wf(),
            history@ == g.history,
            history_len == g.history.len(),
            steps_back == history_depth(g),
            perspective == g.turn,
            opponent == g.turn.other(),
            board_size == g.board.area(),
            board_size <= 1024,
            t <= HISTORY_LENGTH,
            board.wf(),
            board@.area() == board_size,
            board@.width == g.board.width,
            board@.height == g.board.height,
            t <= steps_back ==> board@ == board_back(g, t as nat),
            data@ =~= Seq::new((2 * t * board_size) as nat, |k: int| plane_value(g, k / g.board.area(), k % g.board.area())),
        decreases HISTORY_LENGTH - t,
    {
        let active = t <= steps_back;
        proof {
            assert(2 * t * board_size + 2 * board_size <= 17 * 1024) by (nonlinear_arith)
                requires
                    t < 8,
                    board_size <= 1024,
            ;
        }
        let ghost d0 = data@;
        push_plane(&mut data, &board, perspective, active, board_size);
        proof {
            lemma_next_plane(g, d0, 2 * t, data@.subrange(d0.len() as int, data@.len() as int));
            assert(d0 + data@.subrange(d0.len() as int, data@.len() as int) =~= data@);
        }
        let ghost d1 = data@;
        push_plane(&mut data, &board, opponent, active, board_size);
        proof {
            lemma_next_plane(g, d1, 2 * t + 1, data@.subrange(d1.len() as int, data@.len() as int));
            assert(d1 + data@.subrange(d1.len() as int, data@.len() as int) =~= data@);
            assert(2 * (t + 1) * board_size == (2 * t + 1 + 1) * board_size) by (nonlinear_arith);
        }
        if t < steps_back {
            let mv = history[history_len - 1 - t];
            proof {
                assert(g.history[g.history.len() - (t + 1)] == mv);
                assert(mv.col < g.board.width && mv.row < g.board.height);
            }
            let ghost before = board@;
            board.set_piece(&Position::new(mv.col, mv.row), None);
            proof {
                assert(board@ == before.with_piece(mv.row * g.board.width + mv.col, None));
                assert(board_back(g, (t + 1) as nat) == board_back(g, t as nat).with_piece(
                    mv.row * g.board.width + mv.col,
                    None,
                ));
            }
        }
        t += 1;
    }

    // Colour plane: the last plane.
    let color_value: u8 = if perspective == Player::Red {
        1
    } else {
        0
    };
    let ghost d2 = data@;
    let mut i: usize = 0;
    while i < board_size
        invariant
            i <= board_size,
            board_size == g.board.area(),
            board_size <= 1024,
            data@.len() == d2.len() + i,
            d2.len() == 2 * HISTORY_LENGTH * board_size,
            forall|k: int| 0 <= k < d2.len() ==> #[trigger] data@[k] == d2[k],
            forall|k: int| d2.len() <= k < d2.len() + i ==> #[trigger] data@[k] == color_value,
        decreases board_size - i,
    {
        data.push(color_value);
        i += 1;
    }
    proof {
        let plane = data@.subrange(d2.len() as int, data@.len() as int);
        assert(d2 + plane =~= data@);
        lemma_next_plane(g, d2, 2 * HISTORY_LENGTH as int, plane);
        assert((TOTAL_INPUT_PLANES * g.board.area()) == (2 * HISTORY_LENGTH + 1) * g.board.area());
    }
    (data, num_planes, height, width)
}

/// The action for a move: its column.
pub fn encode_move(move_: &Move) -> (r: usize)
    ensures
        r == move_.col,
{
    move_.col as usize
}

/// The move for an action: a drop into column `action` at the column's
/// height. `None` when the column is off the board or has reached the top.
pub fn decode_move<const NW: usize>(action: usize, game: &Game<NW>) -> (r: Option<Move>)
    requires
        game.wf(),
    ensures
        r == decoded(game@, action as int),
{
    if action >= game.width() as usize {
        return None;
    }
    let col = action as u8;
    let row = game.board().column_height(col, game.geo());
    if row >= game.height() {
        return None;
    }
    Some(Move::new(col, row))
}

/// Decoding the action of a legal move gives that move back; decoding an
/// action past the last column, or into a column filled to the top, gives
/// nothing.
pub proof fn lemma_action_round_trip(g: GameView, m: Move, action: int)
    requires
        g.wf(),
    ensures
        g.is_legal(m) ==> decoded(g, m.col as int) == Some(m),
        action >= g.board.width ==> decoded(g, action) is None,
        0 <= action < g.board.width && g.board.column(action).subset_of(g.board.occupied())
            ==> decoded(g, action) is None,
{
    let b = g.board;
    if g.is_legal(m) {
        let c = m.col as int;
        let top = (b.height - 1) * b.width + c;
        lemma_cell(b.width, b.height - 1, c);
        lemma_cell_bound(b.width, b.height, b.height - 1, c);
        lemma_column_len(b.width, b.height, c);
        let filled = b.occupied().intersect(b.column(c));
        assert(filled.subset_of(b.column(c).remove(top)));
        vstd::set_lib::lemma_len_subset(filled, b.column(c).remove(top));
    }
    if 0 <= action < b.width && b.column(action).subset_of(b.occupied()) {
        lemma_column_len(b.width, b.height, action);
        assert(b.occupied().intersect(b.column(action)) =~= b.column(action));
    }
}

} // verus!

//! How a finished game ended.
use vstd::prelude::*;
use crate::player::Player;

verus! {

/// The result of a finished game.
#[derive(Clone, Copy, Debug, PartialEq, Eq, Hash, Structural)]
pub enum GameOutcome {
    RedWin,
    YellowWin,
    Draw,
}

impl GameOutcome {
    /// The outcome in which `p` has won.
    pub open spec fn win_for(p: Player) -> GameOutcome {
        match p {
            Player::Red => GameOutcome::RedWin,
            Player::Yellow => GameOutcome::YellowWin,
        }
    }

    /// The outcome in which `p` has won.
    pub fn win(p: Player) -> (r: GameOutcome)
        ensures
            r == Self::win_for(p),
    {
        match p {
            Player::Red => GameOutcome::RedWin,
            Player::Yellow => GameOutcome::YellowWin,
        }
    }

    /// The winner, if the game was not drawn.
    pub fn winner(&self) -> (r: Option<Player>)
        ensures
            r == match *self {
                GameOutcome::RedWin => Some(Player::Red),
                GameOutcome::YellowWin => Some(Player::Yellow),
                GameOutcome::Draw => None::<Player>,
            },
    {
        match self {
            GameOutcome::RedWin => Some(Player::Red),
            GameOutcome::YellowWin => Some(Player::Yellow),
            GameOutcome::Draw => None,
        }
    }

    /// Whether the game was drawn.
    pub fn is_draw(&self) -> (r: bool)
        ensures
            r == (*self == GameOutcome::Draw),
    {
        match self {
            GameOutcome::Draw => true,
            _ => false,
        }
    }

    /// The reward seen from Red's side: 1 for a Red win, -1 for a Yellow win,
    /// 0 for a draw.
    pub fn encode_winner_absolute(&self) -> (r: i8)
        ensures
            r == match *self {
                GameOutcome::RedWin => 1i8,
                GameOutcome::YellowWin => -1i8,
                GameOutcome::Draw => 0i8,
            },
    {
        match self {
            GameOutcome::RedWin => 1,
            GameOutcome::YellowWin => -1,
            GameOutcome::Draw => 0,
        }
    }

    /// The reward seen from `perspective`'s side: 1 if it won, -1 if it
    /// lost, 0 for a draw.
    pub fn encode_winner_from_perspective(&self, perspective: Player) -> (r: i8)
        ensures
            *self == GameOutcome::Draw ==> r == 0,
            *self == Self::win_for(perspective) ==> r == 1,
            *self == Self::win_for(perspective.other()) ==> r == -1,
    {
        match (self, perspective) {
            (GameOutcome::Draw, _) => 0,
            (GameOutcome::RedWin, Player::Red) => 1,
            (GameOutcome::YellowWin, Player::Yellow) => 1,
            _ => -1,
        }
    }
}

} // verus!

//! The two players.
use vstd::prelude::*;

verus! {

/// A player: Red moves first.
#[derive(Clone, Copy, Debug, PartialEq, Eq, Hash, Structural)]
pub enum Player {
    Red,
    Yellow,
}

impl Player {
    /// The other player.
    pub open spec fn other(self) -> Player {
        match self {
            Player::Red => Player::Yellow,
            Player::Yellow => Player::Red,
        }
    }

    /// The other player.
    pub fn opposite(&self) -> (r: Player)
        ensures
            r == self.other(),
    {
        match self {
            Player::Red => Player::Yellow,
            Player::Yellow => Player::Red,
        }
    }

    /// The integer a host uses for this player: 1 for Red, -1 for Yellow.
    pub open spec fn int_of(self) -> i8 {
        match self {
            Player::Red => 1i8,
            Player::Yellow => -1i8,
        }
    }

    /// The integer a host uses for this player: 1 for Red, -1 for Yellow.
    pub fn to_int(&self) -> (r: i8)
        ensures
            r == self.int_of(),
    {
        match self {
            Player::Red => 1,
            Player::Yellow => -1,
        }
    }

    /// The player for a host integer, if it names one.
    pub fn from_int(value: i8) -> (r: Option<Player>)
        ensures
            r matches Some(p) ==> p.int_of() == value,
            r is None <==> (value != 1 && value != -1),
    {
        if value == 1 {
            Some(Player::Red)
        } else if value == -1 {
            Some(Player::Yellow)
        } else {
            None
        }
    }

    /// The character shown for this player's pieces.
    pub fn to_char(&self) -> (r: char)
        ensures
            r == (if *self == Player::Red {
                'R'
            } else {
                'Y'
            }),
    {
        match self {
            Player::Red => 'R',
            Player::Yellow => 'Y',
        }
    }
}

} // verus!

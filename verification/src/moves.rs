//! Moves and turn plans.

use vstd::prelude::*;

use crate::types::{Color, Coord, PieceKind};

verus! {

/// Special classification of a move; ordinary moves are `Normal`.
#[derive(Copy, Clone, Debug, PartialEq, Eq, Hash, Structural)]
pub enum MoveKind {
    Normal,
    /// Pawn double push; sets the en-passant target on the successor board.
    DoublePush,
    /// Capture of the en-passant target; removes the pawn on (to.x, from.y).
    EnPassant,
    /// King-side castling (on one board).
    CastleKing,
    /// Queen-side castling (on one board).
    CastleQueen,
}

/// A piece goes from `from` to `to`.
#[derive(Copy, Clone, Debug, PartialEq, Eq, Hash, Structural)]
pub struct Move {
    pub from: Coord,
    pub to: Coord,
    pub promotion: Option<PieceKind>,
    pub capture: bool,
    pub mover: Color,
    pub kind: MoveKind,
}

/// Whether a move leaves the board it starts on.
pub open spec fn cross_board(m: Move) -> bool {
    m.from.l != m.to.l || m.from.t != m.to.t
}

impl Move {
    /// Whether the destination lies on another board than the source.
    pub fn is_cross_board(&self) -> (r: bool)
        ensures
            r == cross_board(*self),
    {
        self.from.l != self.to.l || self.from.t != self.to.t
    }
}

/// A whole turn of one player: one or more moves, applied in order.
pub type TurnPlan = Vec<Move>;

} // verus!

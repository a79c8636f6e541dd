//! A rules engine for checkers (draughts): the board, the legal moves of a
//! side, forced capture, multi-jump chains, promotion and king sliding.
use vstd::prelude::*;

pub mod board;
pub mod board_builder;
pub mod checkers_move;
pub mod piece;
pub mod position;

pub use board::Board;
pub use board_builder::BoardBuilder;
pub use checkers_move::CheckersMove;
pub use piece::Piece;
pub use position::Position;

verus! {

/// Any failure of the library: a square that cannot be formed, or a broken rule.
#[derive(Clone, Copy, Debug, PartialEq, Eq, Structural)]
pub enum Error {
    Position(position::Error),
    Rules(RulesError),
}

/// A rule of the game that an operation would break.
#[derive(Clone, Copy, Debug, PartialEq, Eq, Structural)]
pub enum RulesError {
    /// The square was expected to hold a piece and is empty.
    Empty(Position),
    /// The square was expected to be empty and holds a piece.
    Occupied(Position),
    /// A color would have more than twelve pieces.
    ColorLimit { is_white: bool },
    /// A piece tried to jump a piece of its own color.
    SameColorCapture { capturing_pos: Position, captured_pos: Position, is_white: bool },
    /// A man tried to step backwards, or to start on its own promotion rank.
    NotKing(Position),
}

impl From<position::Error> for Error {
    fn from(e: position::Error) -> (r: Error) {
        Error::Position(e)
    }
}

impl vstd::std_specs::convert::FromSpecImpl<position::Error> for Error {
    open spec fn obeys_from_spec() -> bool {
        true
    }

    open spec fn from_spec(e: position::Error) -> Error {
        Error::Position(e)
    }
}

impl From<RulesError> for Error {
    fn from(e: RulesError) -> (r: Error) {
        Error::Rules(e)
    }
}

impl vstd::std_specs::convert::FromSpecImpl<RulesError> for Error {
    open spec fn obeys_from_spec() -> bool {
        true
    }

    open spec fn from_spec(e: RulesError) -> Error {
        Error::Rules(e)
    }
}

} // verus!

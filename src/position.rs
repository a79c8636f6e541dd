//! Squares of the board: the 32 dark squares of an 8×8 board, numbered 1..=32
//! in draughts notation, with their (file, rank) coordinates.
use vstd::prelude::*;

use crate::piece::Piece;

verus! {

/// Why a square could not be formed.
#[derive(Clone, Copy, Debug, PartialEq, Eq, Structural)]
pub enum Error {
    /// The coordinates or the number lie off the board.
    OutOfBounds,
    /// The coordinates name a light square, which no piece may occupy.
    WhiteSquare,
}

/// The rank (row, 0 = farthest from white) of the square numbered `n`.
pub open spec fn rank_of(n: int) -> int {
    (n - 1) / 4
}

/// The file (column) of the square numbered `n`.
pub open spec fn file_of(n: int) -> int {
    (n - 1) % 4 * 2 + (rank_of(n) + 1) % 2
}

/// The number of the square at file `x`, rank `y`.
pub open spec fn notation_at(x: int, y: int) -> int {
    y * 4 + x / 2 + 1
}

pub open spec fn in_bounds(x: int, y: int) -> bool {
    0 <= x < 8 && 0 <= y < 8
}

/// A playable square: on the board, with an odd coordinate sum.
pub open spec fn is_dark(x: int, y: int) -> bool {
    in_bounds(x, y) && (x + y) % 2 == 1
}

/// One of the 32 playable squares.
#[derive(Clone, Copy, Debug, PartialEq, Eq, Hash, Structural)]
pub struct Position(u8);

impl Position {
    #[verifier::type_invariant]
    spec fn inv(self) -> bool {
        1 <= self.0 <= 32
    }

    /// The square's number in draughts notation.
    pub closed spec fn num(self) -> int {
        self.0 as int
    }

    /// The square numbered `n` (meaningful for `n` in 1..=32).
    pub closed spec fn from_num(n: int) -> Position {
        Position(n as u8)
    }

    pub open spec fn file(self) -> int {
        file_of(self.num())
    }

    pub open spec fn rank(self) -> int {
        rank_of(self.num())
    }

    /// The square at file `x`, rank `y`.
    pub open spec fn at(x: int, y: int) -> Position {
        Position::from_num(notation_at(x, y))
    }

    /// Whether a piece of the given color is promoted on this square:
    /// squares 1..=4 for white, 29..=32 for black.
    pub open spec fn promotes(self, is_white: bool) -> bool {
        if is_white {
            1 <= self.num() <= 4
        } else {
            29 <= self.num() <= 32
        }
    }

    /// The number of the square, 1..=32.
    pub fn notation(self) -> (r: u8)
        ensures
            r == self.num(),
            1 <= r <= 32,
    {
        proof {
            use_type_invariant(&self);
        }
        self.0
    }

    /// The square's (file, rank) coordinates.
    pub fn coords(self) -> (r: (usize, usize))
        ensures
            r.0 == self.file(),
            r.1 == self.rank(),
            is_dark(r.0 as int, r.1 as int),
    {
        proof {
            use_type_invariant(&self);
            lemma_coords_of_notation(self.0 as int);
        }
        let y: u8 = (self.0 - 1) / 4;
        let x: u8 = (self.0 - 1) % 4 * 2 + (y + 1) % 2;
        (x as usize, y as usize)
    }

    /// The square numbered `num`, known to lie in 1..=32.
    pub(crate) fn from_valid(num: u8) -> (r: Position)
        requires
            1 <= num <= 32,
        ensures
            r == Position::from_num(num as int),
            r.num() == num,
    {
        Position(num)
    }

    /// Builds the square numbered `num`.
    pub fn from_notation(num: u8) -> (r: Result<Position, Error>)
        ensures
            r == Position::notation_result(num as int),
    {
        if 1 <= num && num <= 32 {
            Ok(Position(num))
        } else {
            Err(Error::OutOfBounds)
        }
    }

    pub open spec fn notation_result(num: int) -> Result<Position, Error> {
        if 1 <= num <= 32 {
            Ok(Position::from_num(num))
        } else {
            Err(Error::OutOfBounds)
        }
    }

    /// Builds the square at file `x`, rank `y`.
    pub fn from_coords(x: usize, y: usize) -> (r: Result<Position, Error>)
        ensures
            r == Position::coords_result(x as int, y as int),
    {
        if x >= 8 || y >= 8 {
            Err(Error::OutOfBounds)
        } else if (x + y) % 2 == 0 {
            Err(Error::WhiteSquare)
        } else {
            proof {
                lemma_notation_of_coords(x as int, y as int);
            }
            Ok(Position((y as u8) * 4 + (x as u8) / 2 + 1))
        }
    }

    pub open spec fn coords_result(x: int, y: int) -> Result<Position, Error> {
        if !in_bounds(x, y) {
            Err(Error::OutOfBounds)
        } else if (x + y) % 2 == 0 {
            Err(Error::WhiteSquare)
        } else {
            Ok(Position::at(x, y))
        }
    }

    /// This square moved by `delta` (file, rank).
    ///
    /// Fails with `OutOfBounds` when the result leaves the board, and with
    /// `WhiteSquare` when it lands on a light square.
    pub fn increment(self, delta: (i8, i8)) -> (r: Result<Self, Error>)
        ensures
            r == Position::coords_result(self.file() + delta.0, self.rank() + delta.1),
    {
        let (x, y) = self.coords();
        let nx: i16 = x as i16 + delta.0 as i16;
        let ny: i16 = y as i16 + delta.1 as i16;
        if 0 <= nx && nx <= 7 && 0 <= ny && ny <= 7 {
            Position::from_coords(nx as usize, ny as usize)
        } else {
            Err(Error::OutOfBounds)
        }
    }

    /// Returns whether `piece` would be promoted on this square.
    pub fn is_promoting(self, piece: Piece) -> (r: bool)
        ensures
            r == self.promotes(piece.is_white),
    {
        let n = self.notation();
        if piece.is_white {
            n <= 4
        } else {
            n >= 29
        }
    }
}

/// The square numbered `num` (draughts notation).
impl TryFrom<u8> for Position {
    type Error = Error;

    fn try_from(num: u8) -> (r: Result<Self, Error>) {
        Position::from_notation(num)
    }
}

impl vstd::std_specs::convert::TryFromSpecImpl<u8> for Position {
    open spec fn obeys_try_from_spec() -> bool {
        true
    }

    open spec fn try_from_spec(num: u8) -> Result<Self, Error> {
        Position::notation_result(num as int)
    }
}

/// The square at the given (file, rank) coordinates.
impl TryFrom<(usize, usize)> for Position {
    type Error = Error;

    fn try_from(coords: (usize, usize)) -> (r: Result<Self, Error>) {
        Position::from_coords(coords.0, coords.1)
    }
}

impl vstd::std_specs::convert::TryFromSpecImpl<(usize, usize)> for Position {
    open spec fn obeys_try_from_spec() -> bool {
        true
    }

    open spec fn try_from_spec(coords: (usize, usize)) -> Result<Self, Error> {
        Position::coords_result(coords.0 as int, coords.1 as int)
    }
}

/// The number of a square in draughts notation.
impl From<Position> for u8 {
    fn from(p: Position) -> (r: u8) {
        p.notation()
    }
}

impl vstd::std_specs::convert::FromSpecImpl<Position> for u8 {
    open spec fn obeys_from_spec() -> bool {
        true
    }

    open spec fn from_spec(p: Position) -> u8 {
        p.num() as u8
    }
}

/// The (file, rank) coordinates of a square.
impl From<Position> for (usize, usize) {
    fn from(p: Position) -> (r: (usize, usize)) {
        p.coords()
    }
}

impl vstd::std_specs::convert::FromSpecImpl<Position> for (usize, usize) {
    open spec fn obeys_from_spec() -> bool {
        true
    }

    open spec fn from_spec(p: Position) -> (usize, usize) {
        (p.file() as usize, p.rank() as usize)
    }
}

/// Facts that tie `num` and `from_num` together.
pub broadcast proof fn lemma_num_from_num(n: int)
    requires
        1 <= n <= 32,
    ensures
        #[trigger] Position::from_num(n).num() == n,
{
}

/// A square is determined by its number.
pub broadcast proof fn lemma_from_num_num(p: Position)
    ensures
        #[trigger] Position::from_num(p.num()) == p,
{
}

pub broadcast group group_position {
    lemma_num_from_num,
    lemma_from_num_num,
}

pub proof fn lemma_coords_of_notation(n: int)
    requires
        1 <= n <= 32,
    ensures
        is_dark(file_of(n), rank_of(n)),
        notation_at(file_of(n), rank_of(n)) == n,
{
}

pub proof fn lemma_notation_of_coords(x: int, y: int)
    requires
        is_dark(x, y),
    ensures
        1 <= notation_at(x, y) <= 32,
        file_of(notation_at(x, y)) == x,
        rank_of(notation_at(x, y)) == y,
{
}

/// The coordinates of any number have an odd sum, so every in-bounds square
/// reached from them by diagonal steps is dark.
pub proof fn lemma_odd_coords(n: int)
    ensures
        (file_of(n) + rank_of(n)) % 2 == 1,
{
}

/// Coordinates and numbers are two names for the same 32 squares: going from
/// one to the other and back gives what one started with.
pub proof fn lemma_round_trip(x: int, y: int, n: int)
    ensures
        is_dark(x, y) ==> Position::at(x, y).file() == x && Position::at(x, y).rank() == y,
        1 <= n <= 32 ==> is_dark(file_of(n), rank_of(n)) && Position::at(
            file_of(n),
            rank_of(n),
        ).num() == n,
{
    broadcast use group_position;

    if is_dark(x, y) {
        lemma_notation_of_coords(x, y);
    }
    if 1 <= n <= 32 {
        lemma_coords_of_notation(n);
    }
}

} // verus!

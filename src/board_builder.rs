//! Validated construction of a board: at most twelve pieces of each color, one
//! piece per square, and no man on its own promotion rank.
use vstd::prelude::*;

use crate::board::{tile_of, Board};
use crate::piece::Piece;
use crate::position::{self, Position};
use crate::{Error, RulesError};

verus! {

broadcast use crate::position::group_position, crate::board::lemma_board_len;

/// Whether a tile holds a piece of the given color.
pub open spec fn holds_color(v: Option<Piece>, is_white: bool) -> bool {
    v matches Some(q) && q.is_white == is_white
}

/// The number of pieces of one color on the first `n` squares.
pub open spec fn color_count(t: Seq<Option<Piece>>, is_white: bool, n: int) -> nat
    decreases n,
{
    if n <= 0 {
        0
    } else {
        color_count(t, is_white, n - 1) + if holds_color(t[n - 1], is_white) {
            1nat
        } else {
            0nat
        }
    }
}

/// The number of pieces of one color on the board.
pub open spec fn count_of(t: Seq<Option<Piece>>, is_white: bool) -> nat {
    color_count(t, is_white, 32)
}

/// The board with no piece.
pub open spec fn empty_tiles() -> Seq<Option<Piece>> {
    Seq::new(32, |i: int| None)
}

/// The man of the given color on square `i + 1`.
pub open spec fn man_at(is_white: bool, i: int) -> Option<Piece> {
    Some(Piece { is_king: false, is_white, position: Position::from_num(i + 1) })
}

/// The starting position: black men on squares 1..=12, white men on 21..=32.
pub open spec fn standard_layout() -> Seq<Option<Piece>> {
    Seq::new(
        32,
        |i: int|
            if i < 12 {
                man_at(false, i)
            } else if i >= 20 {
                man_at(true, i)
            } else {
                None
            },
    )
}

/// What inserting `piece` gives: the color limit is checked first, then the
/// square, then the promotion rank.
pub open spec fn insert_result(t: Seq<Option<Piece>>, piece: Piece) -> Result<
    Seq<Option<Piece>>,
    Error,
> {
    if count_of(t, piece.is_white) >= 12 {
        Err(Error::Rules(RulesError::ColorLimit { is_white: piece.is_white }))
    } else if tile_of(t, piece.position) is Some {
        Err(Error::Rules(RulesError::Occupied(piece.position)))
    } else if !piece.is_king && piece.position.promotes(piece.is_white) {
        Err(Error::Rules(RulesError::NotKing(piece.position)))
    } else {
        Ok(t.update(piece.position.num() - 1, Some(piece)))
    }
}

/// What removing the piece on `pos` gives.
pub open spec fn remove_result(t: Seq<Option<Piece>>, pos: Position) -> Result<
    Seq<Option<Piece>>,
    Error,
> {
    if tile_of(t, pos) is None {
        Err(Error::Rules(RulesError::Empty(pos)))
    } else {
        Ok(t.update(pos.num() - 1, None))
    }
}

/// What replacing the piece on `piece.position` by `piece` gives.
pub open spec fn replace_result(t: Seq<Option<Piece>>, piece: Piece) -> Result<
    Seq<Option<Piece>>,
    Error,
> {
    match remove_result(t, piece.position) {
        Ok(u) => insert_result(u, piece),
        Err(e) => Err(e),
    }
}

/// The piece that a template code stands for at file `x`, rank `y`: odd
/// codes are white, codes above 2 are kings.
pub open spec fn template_piece(code: u8, x: int, y: int) -> Piece {
    Piece { is_king: code > 2, is_white: code % 2 == 1, position: Position::at(x, y) }
}

/// The board built from the first `n` cells of a template, taken file by file
/// (file 0 from rank 0 to rank 7, then file 1, ...), or the first failure.
pub open spec fn template_result(template: [[u8; 8]; 8], n: int) -> Result<
    Seq<Option<Piece>>,
    Error,
>
    decreases n,
{
    if n <= 0 {
        Ok(empty_tiles())
    } else {
        match template_result(template, n - 1) {
            Err(e) => Err(e),
            Ok(t) => {
                let x = (n - 1) / 8;
                let y = (n - 1) % 8;
                let code = template@[y]@[x];
                if code == 0 {
                    Ok(t)
                } else if (x + y) % 2 == 0 {
                    Err(Error::Position(position::Error::WhiteSquare))
                } else {
                    insert_result(t, template_piece(code, x, y))
                }
            },
        }
    }
}

/// Changing one square changes the count of a color by what left and what came.
pub proof fn lemma_color_count_update(
    t: Seq<Option<Piece>>,
    i: int,
    v: Option<Piece>,
    is_white: bool,
    n: int,
)
    requires
        0 <= i < t.len(),
        n <= t.len(),
    ensures
        color_count(t.update(i, v), is_white, n) + (if i < n && holds_color(t[i], is_white) {
            1int
        } else {
            0int
        }) == color_count(t, is_white, n) + (if i < n && holds_color(v, is_white) {
            1int
        } else {
            0int
        }),
    decreases n,
{
    if n > 0 {
        lemma_color_count_update(t, i, v, is_white, n - 1);
    }
}

proof fn lemma_color_count_empty(is_white: bool, n: int)
    requires
        n <= 32,
    ensures
        color_count(empty_tiles(), is_white, n) == 0,
    decreases n,
{
    if n > 0 {
        lemma_color_count_empty(is_white, n - 1);
    }
}

/// Once a template has failed, the failure stands.
proof fn lemma_template_err(template: [[u8; 8]; 8], n: int, m: int)
    requires
        n <= m,
        template_result(template, n) is Err,
    ensures
        template_result(template, m) == template_result(template, n),
    decreases m - n,
{
    if n < m {
        lemma_template_err(template, n, m - 1);
    }
}

/// A board under construction, with the number of pieces of each color.
#[derive(Debug)]
pub struct BoardBuilder {
    board: Board,
    white_pieces: u8,
    black_pieces: u8,
}

impl View for BoardBuilder {
    type V = Seq<Option<Piece>>;

    closed spec fn view(&self) -> Seq<Option<Piece>> {
        self.board@
    }
}

/// A builder has a tile for each of the 32 dark squares.
pub broadcast proof fn lemma_builder_len(b: BoardBuilder)
    ensures
        #[trigger] b@.len() == 32,
{
    crate::board::lemma_board_len(b.board);
}

impl BoardBuilder {
    #[verifier::type_invariant]
    spec fn inv(self) -> bool {
        &&& self.white_pieces as nat == count_of(self.board@, true)
        &&& self.black_pieces as nat == count_of(self.board@, false)
        &&& self.white_pieces <= 12
        &&& self.black_pieces <= 12
    }

    /// A builder with no piece.
    pub fn empty() -> (r: Self)
        ensures
            r@ == empty_tiles(),
    {
        let board = Board::default();
        assert(board@ =~= empty_tiles());
        proof {
            lemma_color_count_empty(true, 32);
            lemma_color_count_empty(false, 32);
        }
        BoardBuilder { board, white_pieces: 0, black_pieces: 0 }
    }

    /// A builder filled from an 8×8 template of codes, `template[rank][file]`:
    /// 0 is empty, odd codes are white, even ones black, codes above 2 kings.
    /// The cells are inserted file by file; the first failure is returned, and
    /// a piece on a light square fails with `WhiteSquare`.
    pub fn try_from_template(template: [[u8; 8]; 8]) -> (r: Result<Self, Error>)
        ensures
            template_result(template, 64) matches Ok(t) ==> r matches Ok(b) && b@ == t,
            template_result(template, 64) matches Err(e) ==> r matches Err(f) && f == e,
    {
        let mut builder = BoardBuilder::empty();
        let mut x: usize = 0;
        while x < 8
            invariant
                0 <= x <= 8,
                template_result(template, 8 * x) == Ok::<Seq<Option<Piece>>, Error>(builder@),
            decreases 8 - x,
        {
            let mut y: usize = 0;
            while y < 8
                invariant
                    0 <= x < 8,
                    0 <= y <= 8,
                    template_result(template, 8 * x + y) == Ok::<Seq<Option<Piece>>, Error>(
                        builder@,
                    ),
                decreases 8 - y,
            {
                let ghost n = 8 * x + y + 1;
                assert((n - 1) / 8 == x && (n - 1) % 8 == y) by (nonlinear_arith)
                    requires
                        n == 8 * x + y + 1,
                        0 <= y < 8,
                        0 <= x,
                ;
                let row = template[y];
                let code = row[x];
                if code != 0 {
                    if (x + y) % 2 == 0 {
                        proof {
                            lemma_template_err(template, n, 64);
                        }
                        return Err(Error::Position(position::Error::WhiteSquare));
                    }
                    let position = match Position::from_coords(x, y) {
                        Ok(p) => p,
                        Err(e) => {
                            return Err(Error::Position(e));
                        },
                    };
                    let piece = Piece { is_king: code > 2, is_white: code % 2 == 1, position };
                    assert(piece == template_piece(code, x as int, y as int));
                    builder =
                    match builder.try_insert(piece) {
                        Ok(b) => b,
                        Err(e) => {
                            proof {
                                lemma_template_err(template, n, 64);
                            }
                            return Err(e);
                        },
                    };
                }
                y = y + 1;
            }
            x = x + 1;
        }
        Ok(builder)
    }

    /// The finished board.
    pub fn build(self) -> (r: Board)
        ensures
            r@ == self@,
    {
        self.board
    }

    /// The builder with `piece` added.
    ///
    /// Fails with `ColorLimit` when its color has twelve pieces already,
    /// `Occupied` when its square is taken, and `NotKing` for a man placed on
    /// its own promotion rank.
    pub fn try_insert(self, piece: Piece) -> (r: Result<Self, Error>)
        ensures
            insert_result(self@, piece) matches Ok(t) ==> r matches Ok(b) && b@ == t,
            insert_result(self@, piece) matches Err(e) ==> r matches Err(f) && f == e,
    {
        proof {
            use_type_invariant(&self);
        }
        if piece.is_white && self.white_pieces >= 12 {
            return Err(Error::Rules(RulesError::ColorLimit { is_white: true }));
        } else if !piece.is_white && self.black_pieces >= 12 {
            return Err(Error::Rules(RulesError::ColorLimit { is_white: false }));
        }
        if self.board.get_tile(piece.position).is_some() {
            return Err(Error::Rules(RulesError::Occupied(piece.position)));
        }
        if !piece.is_king && piece.position.is_promoting(piece) {
            return Err(Error::Rules(RulesError::NotKing(piece.position)));
        }
        let mut board = self.board;
        let ghost before = board@;
        board.set_tile(piece.position, Some(piece));
        proof {
            lemma_color_count_update(before, piece.position.num() - 1, Some(piece), true, 32);
            lemma_color_count_update(before, piece.position.num() - 1, Some(piece), false, 32);
        }
        if piece.is_white {
            Ok(BoardBuilder { board, white_pieces: self.white_pieces + 1, black_pieces: self.black_pieces })
        } else {
            Ok(BoardBuilder { board, white_pieces: self.white_pieces, black_pieces: self.black_pieces + 1 })
        }
    }

    /// The builder with the piece on `position` taken off.
    ///
    /// Fails with `Empty` when the square holds no piece.
    pub fn try_remove(self, position: Position) -> (r: Result<Self, Error>)
        ensures
            remove_result(self@, position) matches Ok(t) ==> r matches Ok(b) && b@ == t,
            remove_result(self@, position) matches Err(e) ==> r matches Err(f) && f == e,
    {
        proof {
            use_type_invariant(&self);
        }
        let is_white = match self.board.get_tile(position) {
            None => {
                return Err(Error::Rules(RulesError::Empty(position)));
            },
            Some(q) => q.is_white,
        };
        let mut board = self.board;
        let ghost before = board@;
        board.set_tile(position, None);
        proof {
            lemma_color_count_update(before, position.num() - 1, None, true, 32);
            lemma_color_count_update(before, position.num() - 1, None, false, 32);
        }
        if is_white {
            Ok(BoardBuilder { board, white_pieces: self.white_pieces - 1, black_pieces: self.black_pieces })
        } else {
            Ok(BoardBuilder { board, white_pieces: self.white_pieces, black_pieces: self.black_pieces - 1 })
        }
    }

    /// The builder with the piece on `piece.position` replaced by `piece`:
    /// a removal, then an insertion, each failing as it does alone.
    pub fn try_replace(self, piece: Piece) -> (r: Result<Self, Error>)
        ensures
            replace_result(self@, piece) matches Ok(t) ==> r matches Ok(b) && b@ == t,
            replace_result(self@, piece) matches Err(e) ==> r matches Err(f) && f == e,
    {
        match self.try_remove(piece.position) {
            Ok(b) => b.try_insert(piece),
            Err(e) => Err(e),
        }
    }
}

/// The standard starting position: twelve black men on squares 1..=12,
/// twelve white men on squares 21..=32.
impl Default for BoardBuilder {
    fn default() -> (r: Self)
        ensures
            r@ == standard_layout(),
    {
        let mut board = Board::default();
        assert(board@ =~= empty_tiles());
        proof {
            lemma_color_count_empty(true, 32);
            lemma_color_count_empty(false, 32);
        }
        let mut n: u8 = 0;
        while n < 12
            invariant
                0 <= n <= 12,
                board@ == Seq::new(32, |i: int| if i < n { man_at(false, i) } else { None }),
                count_of(board@, false) == n,
                count_of(board@, true) == 0,
            decreases 12 - n,
        {
            let position = Position::from_valid(n + 1);
            let piece = Piece { is_king: false, is_white: false, position };
            let ghost before = board@;
            board.set_tile(position, Some(piece));
            proof {
                lemma_color_count_update(before, n as int, Some(piece), true, 32);
                lemma_color_count_update(before, n as int, Some(piece), false, 32);
            }
            n = n + 1;
            assert(board@ =~= Seq::new(32, |i: int| if i < n { man_at(false, i) } else { None }));
        }
        let mut n: u8 = 20;
        while n < 32
            invariant
                20 <= n <= 32,
                board@ == Seq::new(
                    32,
                    |i: int|
                        if i < 12 {
                            man_at(false, i)
                        } else if 20 <= i < n {
                            man_at(true, i)
                        } else {
                            None
                        },
                ),
                count_of(board@, false) == 12,
                count_of(board@, true) == n - 20,
            decreases 32 - n,
        {
            let position = Position::from_valid(n + 1);
            let piece = Piece { is_king: false, is_white: true, position };
            let ghost before = board@;
            board.set_tile(position, Some(piece));
            proof {
                lemma_color_count_update(before, n as int, Some(piece), true, 32);
                lemma_color_count_update(before, n as int, Some(piece), false, 32);
            }
            n = n + 1;
            assert(board@ =~= Seq::new(
                32,
                |i: int|
                    if i < 12 {
                        man_at(false, i)
                    } else if 20 <= i < n {
                        man_at(true, i)
                    } else {
                        None
                    },
            ));
        }
        assert(board@ =~= standard_layout());
        BoardBuilder { board, white_pieces: 12, black_pieces: 12 }
    }
}

/// Two builders are equal when their boards are; the counts follow from the boards.
impl PartialEq for BoardBuilder {
    fn eq(&self, other: &Self) -> (r: bool) {
        self.board == other.board
    }
}

impl vstd::std_specs::cmp::PartialEqSpecImpl for BoardBuilder {
    open spec fn obeys_eq_spec() -> bool {
        true
    }

    open spec fn eq_spec(&self, other: &Self) -> bool {
        self@ == other@
    }
}

impl Eq for BoardBuilder {

}

} // verus!

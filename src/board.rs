//! The board: one optional piece on each of the 32 dark squares.
use vstd::prelude::*;

use crate::checkers_move::{CheckersMove, MoveView};
use crate::checkers_move::{captures_only, views};
use crate::piece::{
    diagonal, lemma_lone_jump, lemma_moves_sound, lone_jump, opponent_on, piece_moves, ray_in,
    ray_sq, ray_tile, sound_move, Piece,
};
use crate::position::{is_dark, notation_at, Position};
use crate::RulesError;

verus! {

broadcast use crate::position::group_position;

/// Every piece stands on the square that its position names.
pub open spec fn consistent(t: Seq<Option<Piece>>) -> bool {
    &&& t.len() == 32
    &&& forall|i: int|
        0 <= i < 32 && (#[trigger] t[i]) is Some ==> t[i]->Some_0.position.num() == i + 1
}

/// What stands on square `p`.
pub open spec fn tile_of(t: Seq<Option<Piece>>, p: Position) -> Option<Piece> {
    t[p.num() - 1]
}

/// Whether one of the squares in `s` is numbered `n`.
pub open spec fn covers(s: Seq<Position>, n: int) -> bool {
    exists|j: int| 0 <= j < s.len() && (#[trigger] s[j]).num() == n
}

/// The board with the squares in `s` emptied.
pub open spec fn clear_squares(t: Seq<Option<Piece>>, s: Seq<Position>) -> Seq<Option<Piece>> {
    Seq::new(t.len(), |i: int| if covers(s, i + 1) { None } else { t[i] })
}

/// The board with the moving piece placed on its new square and taken off its old one.
pub open spec fn moved(t: Seq<Option<Piece>>, m: MoveView) -> Seq<Option<Piece>> {
    t.update(m.new.position.num() - 1, Some(m.new)).update(m.old.position.num() - 1, None)
}

/// The board after `m`: the piece moved, the captured squares emptied.
pub open spec fn applied(t: Seq<Option<Piece>>, m: MoveView) -> Seq<Option<Piece>> {
    clear_squares(moved(t, m), m.captures)
}

/// The first square of `s`, from index `j` on, that is empty on `t`.
pub open spec fn first_empty(t: Seq<Option<Piece>>, s: Seq<Position>, j: int) -> Option<Position>
    decreases s.len() - j,
{
    if j < 0 || j >= s.len() {
        None
    } else if tile_of(t, s[j]) is None {
        Some(s[j])
    } else {
        first_empty(t, s, j + 1)
    }
}

/// What a checked application of `m` gives: the new board, or `Empty` for
/// the moving piece's square when it is empty, else for the first captured
/// square that is empty once the piece has moved.
pub open spec fn apply_result(t: Seq<Option<Piece>>, m: MoveView) -> Result<
    Seq<Option<Piece>>,
    RulesError,
> {
    if tile_of(t, m.old.position) is None {
        Err(RulesError::Empty(m.old.position))
    } else {
        match first_empty(moved(t, m), m.captures, 0) {
            Some(c) => Err(RulesError::Empty(c)),
            None => Ok(applied(t, m)),
        }
    }
}

/// The moves of the pieces of one color on the first `n` squares, square by square.
pub open spec fn side_moves(t: Seq<Option<Piece>>, is_white: bool, n: int) -> Seq<MoveView>
    decreases n,
{
    if n <= 0 {
        Seq::empty()
    } else {
        side_moves(t, is_white, n - 1) + match t[n - 1] {
            Some(p) => if p.is_white == is_white {
                piece_moves(p, t)
            } else {
                Seq::empty()
            },
            None => Seq::empty(),
        }
    }
}

/// Every move of every piece of one color.
pub open spec fn all_moves(t: Seq<Option<Piece>>, is_white: bool) -> Seq<MoveView> {
    side_moves(t, is_white, 32)
}

pub open spec fn any_capture(s: Seq<MoveView>) -> bool {
    exists|i: int| 0 <= i < s.len() && (#[trigger] s[i]).is_capture()
}

/// The legal moves of one color: if any move captures, only the moves that
/// capture; otherwise all of them.
pub open spec fn legal(t: Seq<Option<Piece>>, is_white: bool) -> Seq<MoveView> {
    let all = all_moves(t, is_white);
    if any_capture(all) {
        captures_only(all)
    } else {
        all
    }
}

/// Forced capture: when some move of a side captures, every legal move
/// captures, and the legal moves are exactly the capturing moves, in order.
pub proof fn lemma_forced_capture(b: Board, is_white: bool)
    requires
        any_capture(all_moves(b@, is_white)),
    ensures
        forall|i: int|
            0 <= i < legal(b@, is_white).len() ==> (#[trigger] legal(b@, is_white)[i]).is_capture(),
        forall|i: int|
            0 <= i < all_moves(b@, is_white).len() && (#[trigger] all_moves(b@, is_white)[i]).is_capture()
                ==> legal(b@, is_white).contains(all_moves(b@, is_white)[i]),
        legal(b@, is_white) == all_moves(b@, is_white).filter(|m: MoveView| m.is_capture()),
{
    broadcast use vstd::seq_lib::group_filter_ensures;

}

proof fn lemma_side_moves_upto_sound(t: Seq<Option<Piece>>, is_white: bool, n: int)
    requires
        consistent(t),
        n <= 32,
    ensures
        forall|i: int|
            0 <= i < side_moves(t, is_white, n).len() ==> {
                let m = #[trigger] side_moves(t, is_white, n)[i];
                &&& m.old.is_white == is_white
                &&& tile_of(t, m.old.position) == Some(m.old)
                &&& sound_move(m.old, t, m)
            },
    decreases n,
{
    if n > 0 {
        lemma_side_moves_upto_sound(t, is_white, n - 1);
        let a = side_moves(t, is_white, n - 1);
        if t[n - 1] is Some {
            let p = t[n - 1]->Some_0;
            assert(p.position.num() == n);
            if p.is_white == is_white {
                lemma_moves_sound(p, t);
            }
        }
        assert forall|i: int| 0 <= i < side_moves(t, is_white, n).len() implies {
            let m = #[trigger] side_moves(t, is_white, n)[i];
            &&& m.old.is_white == is_white
            &&& tile_of(t, m.old.position) == Some(m.old)
            &&& sound_move(m.old, t, m)
        } by {
            if i >= a.len() {
                let p = t[n - 1]->Some_0;
                assert(side_moves(t, is_white, n)[i] == piece_moves(p, t)[i - a.len()]);
            }
        }
    }
}

/// Every move of a side, on a consistent board, moves a piece of that side
/// from the square it stands on, and is sound (see `sound_move`): a man that
/// ends on its promotion rank is crowned, a king stays a king, and the
/// captured squares are distinct and held pieces of the other color.
pub proof fn lemma_side_moves_sound(t: Seq<Option<Piece>>, is_white: bool)
    requires
        consistent(t),
    ensures
        forall|i: int|
            0 <= i < all_moves(t, is_white).len() ==> {
                let m = #[trigger] all_moves(t, is_white)[i];
                &&& m.old.is_white == is_white
                &&& tile_of(t, m.old.position) == Some(m.old)
                &&& sound_move(m.old, t, m)
            },
{
    lemma_side_moves_upto_sound(t, is_white, 32);
}

proof fn lemma_side_moves_lone(t: Seq<Option<Piece>>, w: Piece, c: int, n: int)
    requires
        t.len() == 32,
        1 <= w.position.num() <= 32,
        t[w.position.num() - 1] == Some(w),
        0 <= c < 32,
        c != w.position.num() - 1,
        opponent_on(t[c], w.is_white),
        forall|i: int| 0 <= i < 32 && i != w.position.num() - 1 && i != c ==> #[trigger] t[i] is None,
        n <= 32,
    ensures
        side_moves(t, w.is_white, n) == if n >= w.position.num() {
            piece_moves(w, t)
        } else {
            Seq::empty()
        },
    decreases n,
{
    if n > 0 {
        lemma_side_moves_lone(t, w, c, n - 1);
        if n - 1 == w.position.num() - 1 {
            assert(side_moves(t, w.is_white, n) =~= Seq::empty() + piece_moves(w, t));
        } else {
            assert(side_moves(t, w.is_white, n) =~= side_moves(t, w.is_white, n - 1));
        }
    }
}

/// Single capture: when a man and one piece of the other color diagonally
/// next to it, with an empty square beyond, are alone on the board, the man's
/// side has exactly one legal move, the jump; it captures that piece, and
/// applying it leaves only the man, on the landing square.
pub proof fn lemma_single_capture(t: Seq<Option<Piece>>, w: Piece, d: (i8, i8))
    requires
        consistent(t),
        diagonal(d),
        !w.is_king,
        1 <= w.position.num() <= 32,
        tile_of(t, w.position) == Some(w),
        ray_in(w.position, d, 2),
        opponent_on(ray_tile(t, w.position, d, 1), w.is_white),
        forall|i: int|
            0 <= i < 32 && i != w.position.num() - 1 && i != ray_sq(w.position, d, 1).num() - 1
                ==> #[trigger] t[i] is None,
    ensures
        legal(t, w.is_white) == seq![lone_jump(w, d)],
        lone_jump(w, d).captures == seq![ray_sq(w.position, d, 1)],
        lone_jump(w, d).new.position == ray_sq(w.position, d, 2),
        applied(t, lone_jump(w, d)) == Seq::new(
            32,
            |i: int|
                if i == ray_sq(w.position, d, 2).num() - 1 {
                    Some(lone_jump(w, d).new)
                } else {
                    None
                },
        ),
{
    lemma_lone_jump(w, t, d);
    let c = ray_sq(w.position, d, 1).num() - 1;
    assert(0 <= c < 32 && c != w.position.num() - 1);
    lemma_side_moves_lone(t, w, c, 32);
    let all = all_moves(t, w.is_white);
    assert(all == seq![lone_jump(w, d)]);
    assert(all[0].is_capture());
    assert(any_capture(all));
    reveal_with_fuel(Seq::filter, 2);
    assert(captures_only(all) =~= all);
}

/// An 8×8 checkers board. Only the 32 dark squares can hold a piece.
#[derive(Clone, Copy, Debug)]
pub struct Board {
    squares: [Option<Piece>; 32],
}

impl View for Board {
    type V = Seq<Option<Piece>>;

    /// The pieces on squares 1..=32, at indices 0..32.
    closed spec fn view(&self) -> Seq<Option<Piece>> {
        self.squares@
    }
}

/// A board has a tile for each of the 32 dark squares.
pub broadcast proof fn lemma_board_len(b: Board)
    ensures
        #[trigger] b@.len() == 32,
{
}

fn same_tile(a: Option<Piece>, b: Option<Piece>) -> (r: bool)
    ensures
        r == (a == b),
{
    match (a, b) {
        (None, None) => true,
        (Some(p), Some(q)) => p == q,
        _ => false,
    }
}

impl Board {
    #[verifier::type_invariant]
    spec fn inv(self) -> bool {
        consistent(self.squares@)
    }

    /// The piece on square `pos`, if any.
    pub fn get_tile(&self, pos: Position) -> (r: Option<Piece>)
        ensures
            r == tile_of(self@, pos),
            1 <= pos.num() <= 32,
    {
        let n = pos.notation();
        self.squares[(n - 1) as usize]
    }

    /// Puts `piece` (or nothing) on square `pos`.
    pub(crate) fn set_tile(&mut self, pos: Position, piece: Option<Piece>)
        requires
            piece matches Some(p) ==> p.position == pos,
        ensures
            final(self)@ == old(self)@.update(pos.num() - 1, piece),
            1 <= pos.num() <= 32,
    {
        proof {
            use_type_invariant(&*self);
        }
        let n = pos.notation();
        self.squares[(n - 1) as usize] = piece;
    }

    /// Applies `apply` without checking it against the board: the new piece is
    /// placed, the old square and every captured square are emptied.
    pub fn apply_move_unchecked(&mut self, apply: &CheckersMove)
        ensures
            final(self)@ == applied(old(self)@, apply@),
    {
        let to = apply.new_piece();
        let from = apply.old_piece();
        self.set_tile(to.position, Some(to));
        self.set_tile(from.position, None);
        let captures = apply.captures();
        let ghost start = self@;
        assert(start.len() == 32) by {
            lemma_board_len(*self);
        }
        let mut j: usize = 0;
        while j < captures.len()
            invariant
                0 <= j <= captures@.len(),
                captures@ == apply@.captures,
                start == moved(old(self)@, apply@),
                start.len() == 32,
                self@ == clear_squares(start, captures@.subrange(0, j as int)),
            decreases captures@.len() - j,
        {
            let c = captures[j];
            self.set_tile(c, None);
            proof {
                lemma_clear_one_more(start, captures@, j as int);
            }
            j = j + 1;
        }
        assert(captures@.subrange(0, captures@.len() as int) == captures@);
    }

    /// Applies `apply` to the board, checking first that the moving piece is
    /// on its square and that every captured square still holds a piece once
    /// it has moved. On failure the board is left as it was.
    pub fn apply_move(&mut self, apply: &CheckersMove) -> (r: Result<(), RulesError>)
        ensures
            apply_result(old(self)@, apply@) matches Ok(t) ==> r is Ok && final(self)@ == t,
            apply_result(old(self)@, apply@) matches Err(e) ==> r == Err::<(), RulesError>(e)
                && final(self)@ == old(self)@,
    {
        let to = apply.new_piece();
        let from = apply.old_piece();
        if self.get_tile(from.position).is_none() {
            return Err(RulesError::Empty(from.position));
        }
        let mut after_step = *self;
        after_step.set_tile(to.position, Some(to));
        after_step.set_tile(from.position, None);
        let captures = apply.captures();
        let ghost start = after_step@;
        assert(start == moved(self@, apply@));
        let mut j: usize = 0;
        while j < captures.len()
            invariant
                0 <= j <= captures@.len(),
                captures@ == apply@.captures,
                start == after_step@,
                start == moved(self@, apply@),
                self@ == old(self)@,
                tile_of(self@, apply@.old.position) is Some,
                first_empty(start, captures@, 0) == first_empty(start, captures@, j as int),
            decreases captures@.len() - j,
        {
            let c = captures[j];
            if after_step.get_tile(c).is_none() {
                assert(first_empty(start, captures@, j as int) == Some(c));
                return Err(RulesError::Empty(c));
            }
            j = j + 1;
        }
        assert(first_empty(start, captures@, j as int) is None);
        self.apply_move_unchecked(apply);
        Ok(())
    }

    /// The board after `apply`, checked as `apply_move` checks it.
    pub fn applied_move(self, apply: &CheckersMove) -> (r: Result<Self, RulesError>)
        ensures
            apply_result(self@, apply@) matches Ok(t) ==> r matches Ok(b) && b@ == t,
            apply_result(self@, apply@) matches Err(e) ==> r matches Err(f) && f == e,
    {
        let mut b = self;
        match b.apply_move(apply) {
            Ok(()) => Ok(b),
            Err(e) => Err(e),
        }
    }

    /// The board after `apply`, unchecked as `apply_move_unchecked` is.
    pub fn applied_move_unchecked(self, apply: &CheckersMove) -> (r: Self)
        ensures
            r@ == applied(self@, apply@),
    {
        let mut b = self;
        b.apply_move_unchecked(apply);
        b
    }

    /// Every move of every piece of the given color, square by square from
    /// square 1 to square 32, without the forced-capture rule.
    pub fn all_possible_moves(&self, current_white: bool) -> (r: Vec<CheckersMove>)
        ensures
            views(r@) == all_moves(self@, current_white),
    {
        let mut moves: Vec<CheckersMove> = Vec::new();
        let mut i: usize = 0;
        while i < 32
            invariant
                0 <= i <= 32,
                views(moves@) == side_moves(self@, current_white, i as int),
            decreases 32 - i,
        {
            let ghost before = moves@;
            match self.squares[i] {
                Some(piece) => {
                    if piece.is_white == current_white {
                        let mut more = piece.all_possible_moves(self);
                        let ghost added = more@;
                        moves.append(&mut more);
                        assert(views(before + added) =~= views(before) + views(added));
                    } else {
                        assert(views(moves@) =~= views(moves@) + Seq::<MoveView>::empty());
                    }
                },
                None => {
                    assert(views(moves@) =~= views(moves@) + Seq::<MoveView>::empty());
                },
            }
            i = i + 1;
        }
        moves
    }

    /// The legal moves of the given color: when any piece of that color can
    /// capture, only capturing moves are legal.
    pub fn legal_moves(&self, current_white: bool) -> (r: Vec<CheckersMove>)
        ensures
            views(r@) == legal(self@, current_white),
    {
        let possible = self.all_possible_moves(current_white);
        let ghost all = views(possible@);
        let mut captured_any = false;
        let mut i: usize = 0;
        while i < possible.len()
            invariant
                0 <= i <= possible@.len(),
                all == views(possible@),
                captured_any == exists|j: int| 0 <= j < i && (#[trigger] all[j]).is_capture(),
            decreases possible@.len() - i,
        {
            if possible[i].captures().len() > 0 {
                assert(all[i as int].is_capture());
                captured_any = true;
            }
            i = i + 1;
        }
        if !captured_any {
            return possible;
        }
        let mut legal_moves: Vec<CheckersMove> = Vec::new();
        let mut i: usize = 0;
        while i < possible.len()
            invariant
                0 <= i <= possible@.len(),
                all == views(possible@),
                views(legal_moves@) == captures_only(all.subrange(0, i as int)),
            decreases possible@.len() - i,
        {
            proof {
                reveal(Seq::filter);
                assert(all.subrange(0, i + 1).drop_last() =~= all.subrange(0, i as int));
                assert(all.subrange(0, i + 1).last() == possible@[i as int]@);
            }
            if possible[i].captures().len() > 0 {
                let m = possible[i].duplicate();
                let ghost before = legal_moves@;
                legal_moves.push(m);
                assert(views(before.push(m)) =~= views(before).push(m@));
            }
            i = i + 1;
        }
        assert(all.subrange(0, possible@.len() as int) =~= all);
        legal_moves
    }

    /// The eight rows of the board, rank 0 first, each from file 0 to file 7;
    /// light squares are always empty.
    pub fn iter(&self) -> (r: Vec<[Option<Piece>; 8]>)
        ensures
            r@.len() == 8,
            forall|y: int, x: int|
                0 <= y < 8 && 0 <= x < 8 ==> (#[trigger] r@[y]@[x]) == if is_dark(x, y) {
                    self@[notation_at(x, y) - 1]
                } else {
                    None
                },
    {
        let mut rows: Vec<[Option<Piece>; 8]> = Vec::new();
        let mut y: usize = 0;
        while y < 8
            invariant
                0 <= y <= 8,
                rows@.len() == y,
                forall|yy: int, x: int|
                    0 <= yy < y && 0 <= x < 8 ==> (#[trigger] rows@[yy]@[x]) == if is_dark(x, yy) {
                        self@[notation_at(x, yy) - 1]
                    } else {
                        None
                    },
            decreases 8 - y,
        {
            let mut row: [Option<Piece>; 8] = [None; 8];
            let mut x: usize = 0;
            while x < 8
                invariant
                    0 <= x <= 8,
                    0 <= y < 8,
                    forall|xx: int|
                        0 <= xx < 8 ==> (#[trigger] row@[xx]) == if xx < x && is_dark(xx, y as int) {
                            self@[notation_at(xx, y as int) - 1]
                        } else {
                            None
                        },
                decreases 8 - x,
            {
                if (x + y) % 2 == 1 {
                    row[x] = self.squares[y * 4 + x / 2];
                }
                x = x + 1;
            }
            rows.push(row);
            y = y + 1;
        }
        rows
    }
}

proof fn lemma_clear_one_more(t: Seq<Option<Piece>>, s: Seq<Position>, j: int)
    requires
        0 <= j < s.len(),
        t.len() == 32,
        1 <= s[j].num() <= 32,
    ensures
        clear_squares(t, s.subrange(0, j + 1)) == clear_squares(t, s.subrange(0, j)).update(
            s[j].num() - 1,
            None,
        ),
{
    let a = clear_squares(t, s.subrange(0, j + 1));
    let b = clear_squares(t, s.subrange(0, j)).update(s[j].num() - 1, None);
    assert forall|i: int| 0 <= i < 32 implies a[i] == b[i] by {
        if covers(s.subrange(0, j), i + 1) {
            let k = choose|k: int| 0 <= k < j && (#[trigger] s.subrange(0, j)[k]).num() == i + 1;
            assert(s.subrange(0, j + 1)[k] == s.subrange(0, j)[k]);
        }
        if covers(s.subrange(0, j + 1), i + 1) && i + 1 != s[j].num() {
            let k = choose|k: int|
                0 <= k < j + 1 && (#[trigger] s.subrange(0, j + 1)[k]).num() == i + 1;
            assert(s.subrange(0, j)[k] == s.subrange(0, j + 1)[k]);
        }
        if i + 1 == s[j].num() {
            assert(s.subrange(0, j + 1)[j] == s[j]);
        }
    }
    assert(a =~= b);
}

/// The empty board.
impl Default for Board {
    fn default() -> (r: Self)
        ensures
            forall|i: int| 0 <= i < 32 ==> (#[trigger] r@[i]) is None,
    {
        let empty: Option<Piece> = None;
        let squares: [Option<Piece>; 32] = [empty; 32];
        assert(squares == vstd::array::spec_array_fill_for_copy_type::<Option<Piece>, 32>(empty));
        assert(forall|i: int| 0 <= i < 32 ==> (#[trigger] squares@[i]) is None);
        Board { squares }
    }
}

/// Two boards are equal when every square holds the same piece or nothing.
impl PartialEq for Board {
    fn eq(&self, other: &Self) -> (r: bool) {
        let mut i: usize = 0;
        while i < 32
            invariant
                0 <= i <= 32,
                forall|j: int| 0 <= j < i ==> self@[j] == other@[j],
            decreases 32 - i,
        {
            if !same_tile(self.squares[i], other.squares[i]) {
                return false;
            }
            i = i + 1;
        }
        assert(self@ =~= other@);
        true
    }
}

impl vstd::std_specs::cmp::PartialEqSpecImpl for Board {
    open spec fn obeys_eq_spec() -> bool {
        true
    }

    open spec fn eq_spec(&self, other: &Self) -> bool {
        self@ == other@
    }
}

impl Eq for Board {

}

} // verus!

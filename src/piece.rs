//! Pieces and the search for their moves.
use vstd::prelude::*;

use crate::board::{applied, tile_of, Board};
use crate::checkers_move::{views, CheckersMove, MoveView};
use crate::position::{self, in_bounds, is_dark, Position};
use crate::{Error, RulesError};

verus! {

broadcast use crate::position::group_position;

/// A man or a king of one color, standing on a square.
#[derive(Clone, Copy, Debug, PartialEq, Eq, Structural)]
pub struct Piece {
    pub is_king: bool,
    pub is_white: bool,
    pub position: Position,
}

/// One file and one rank, either way.
pub open spec fn diagonal(d: (i8, i8)) -> bool {
    (d.0 == 1 || d.0 == -1) && (d.1 == 1 || d.1 == -1)
}

/// Whether `d` leads a man of the given color towards the far side: white
/// moves towards rank 0, black towards rank 7.
pub open spec fn forward(is_white: bool, d: (i8, i8)) -> bool {
    if is_white {
        d.1 < 0
    } else {
        d.1 > 0
    }
}

/// The four directions, in the order in which they are searched.
pub open spec fn direction(i: int) -> (i8, i8) {
    if i == 0 {
        (-1i8, -1i8)
    } else if i == 1 {
        (-1i8, 1i8)
    } else if i == 2 {
        (1i8, -1i8)
    } else {
        (1i8, 1i8)
    }
}

/// The file `k` steps from `s` in direction `d`.
pub open spec fn ray_x(s: Position, d: (i8, i8), k: int) -> int {
    if d.0 > 0 {
        s.file() + k
    } else {
        s.file() - k
    }
}

/// The rank `k` steps from `s` in direction `d`.
pub open spec fn ray_y(s: Position, d: (i8, i8), k: int) -> int {
    if d.1 > 0 {
        s.rank() + k
    } else {
        s.rank() - k
    }
}

pub open spec fn ray_in(s: Position, d: (i8, i8), k: int) -> bool {
    in_bounds(ray_x(s, d, k), ray_y(s, d, k))
}

/// The square `k` steps from `s` in direction `d`.
pub open spec fn ray_sq(s: Position, d: (i8, i8), k: int) -> Position {
    Position::at(ray_x(s, d, k), ray_y(s, d, k))
}

pub open spec fn ray_tile(t: Seq<Option<Piece>>, s: Position, d: (i8, i8), k: int) -> Option<Piece> {
    tile_of(t, ray_sq(s, d, k))
}

/// How many empty squares follow one another along the ray, from step `k` on.
pub open spec fn run_len(t: Seq<Option<Piece>>, s: Position, d: (i8, i8), k: int) -> nat
    decreases 8 - k,
{
    if 0 <= k < 8 && ray_in(s, d, k) && ray_tile(t, s, d, k) is None {
        1 + run_len(t, s, d, k + 1)
    } else {
        0
    }
}

/// The move of `p` to `dest`, a king after it as `king` says, capturing `captures`.
pub open spec fn move_to(p: Piece, dest: Position, king: bool, captures: Seq<Position>) -> MoveView {
    MoveView {
        old: p,
        new: Piece { is_king: king, is_white: p.is_white, position: dest },
        captures,
    }
}

/// The plain moves of `p` in direction `d`: one step for a man, every square
/// of the run of empty squares for a king.
pub open spec fn step_result(p: Piece, t: Seq<Option<Piece>>, d: (i8, i8)) -> Result<
    Seq<MoveView>,
    Error,
> {
    let s = p.position;
    if !p.is_king && !forward(p.is_white, d) {
        Err(Error::Rules(RulesError::NotKing(s)))
    } else if !ray_in(s, d, 1) {
        Err(Error::Position(position::Error::OutOfBounds))
    } else if ray_tile(t, s, d, 1) is Some {
        Err(Error::Rules(RulesError::Occupied(ray_sq(s, d, 1))))
    } else {
        let king = p.is_king || ray_sq(s, d, 1).promotes(p.is_white);
        let n = if p.is_king {
            run_len(t, s, d, 1)
        } else {
            1
        };
        Ok(Seq::new(n, |i: int| move_to(p, ray_sq(s, d, i + 1), king, Seq::empty())))
    }
}

/// The single captures of `p` in direction `d`. The jumped piece is the
/// adjacent one for a man, the first one along the ray for a king; the piece
/// lands just beyond it, and a king may slide on over empty squares.
pub open spec fn capture_result(p: Piece, t: Seq<Option<Piece>>, d: (i8, i8)) -> Result<
    Seq<MoveView>,
    Error,
> {
    let s = p.position;
    let k: int = if p.is_king {
        1 + run_len(t, s, d, 1) as int
    } else {
        1
    };
    if !ray_in(s, d, 1) {
        Err(Error::Position(position::Error::OutOfBounds))
    } else if !ray_in(s, d, k) {
        Err(Error::Rules(RulesError::Empty(ray_sq(s, d, k - 1))))
    } else if !ray_in(s, d, k + 1) {
        Err(Error::Position(position::Error::OutOfBounds))
    } else if ray_tile(t, s, d, k) is None {
        Err(Error::Rules(RulesError::Empty(ray_sq(s, d, k))))
    } else if ray_tile(t, s, d, k + 1) is Some {
        Err(Error::Rules(RulesError::Occupied(ray_sq(s, d, k + 1))))
    } else if ray_tile(t, s, d, k)->Some_0.is_white == p.is_white {
        Err(
            Error::Rules(
                RulesError::SameColorCapture {
                    capturing_pos: s,
                    captured_pos: ray_tile(t, s, d, k)->Some_0.position,
                    is_white: p.is_white,
                },
            ),
        )
    } else {
        let king = p.is_king || ray_sq(s, d, k + 1).promotes(p.is_white);
        let n = if p.is_king {
            1 + run_len(t, s, d, k + 2)
        } else {
            1
        };
        Ok(Seq::new(n, |i: int| move_to(p, ray_sq(s, d, k + 1 + i), king, seq![ray_sq(s, d, k)])))
    }
}

/// The moves of a direction that yields some, nothing for one that fails.
pub open spec fn found(r: Result<Seq<MoveView>, Error>) -> Seq<MoveView> {
    match r {
        Ok(ms) => ms,
        Err(_) => Seq::empty(),
    }
}

/// The single captures of `p` in the first `n` directions.
pub open spec fn captures_upto(p: Piece, t: Seq<Option<Piece>>, n: int) -> Seq<MoveView>
    decreases n,
{
    if n <= 0 {
        Seq::empty()
    } else {
        captures_upto(p, t, n - 1) + found(capture_result(p, t, direction(n - 1)))
    }
}

/// The plain moves of `p` in the first `n` directions.
pub open spec fn steps_upto(p: Piece, t: Seq<Option<Piece>>, n: int) -> Seq<MoveView>
    decreases n,
{
    if n <= 0 {
        Seq::empty()
    } else {
        steps_upto(p, t, n - 1) + found(step_result(p, t, direction(n - 1)))
    }
}

pub open spec fn single_captures(p: Piece, t: Seq<Option<Piece>>) -> Seq<MoveView> {
    captures_upto(p, t, 4)
}

pub open spec fn simple_moves(p: Piece, t: Seq<Option<Piece>>) -> Seq<MoveView> {
    steps_upto(p, t, 4)
}

/// The number of occupied squares among the first `n`.
pub open spec fn occupied(t: Seq<Option<Piece>>, n: int) -> nat
    decreases n,
{
    if n <= 0 {
        0
    } else {
        occupied(t, n - 1) + if t[n - 1] is Some {
            1nat
        } else {
            0nat
        }
    }
}

/// What a search from `p` has left to consume: the pieces on the board, and
/// one more while `p` itself does not stand on it.
pub open spec fn search_size(p: Piece, t: Seq<Option<Piece>>) -> nat {
    occupied(t, 32) + if 1 <= p.position.num() <= 32 && tile_of(t, p.position) is Some {
        0nat
    } else {
        1nat
    }
}

/// The continuations of the capture `first` among `conts` (the moves of the
/// piece once it has landed): each that captures again makes a longer chain.
pub open spec fn continued(first: MoveView, conts: Seq<MoveView>) -> Seq<MoveView>
    decreases conts.len(),
{
    if conts.len() == 0 {
        Seq::empty()
    } else {
        let k = conts.last();
        continued(first, conts.drop_last()) + if k.is_capture() {
            seq![MoveView { old: first.old, new: k.new, captures: k.captures + first.captures }]
        } else {
            Seq::empty()
        }
    }
}

/// The complete chains that start with `first`: its continuations, or
/// `first` alone when none captures again.
pub open spec fn chain_moves(first: MoveView, conts: Seq<MoveView>) -> Seq<MoveView> {
    let ext = continued(first, conts);
    if ext.len() == 0 {
        seq![first]
    } else {
        ext
    }
}

/// All moves of `p` on `t`: its maximal capture chains if it can capture,
/// its plain moves otherwise.
pub open spec fn piece_moves(p: Piece, t: Seq<Option<Piece>>) -> Seq<MoveView>
    decreases search_size(p, t), 1int, 0int,
{
    let caps = single_captures(p, t);
    if caps.len() == 0 {
        simple_moves(p, t)
    } else {
        chains(p, t, caps.len() as int)
    }
}

/// The complete chains that start with the first `n` single captures of `p`.
pub open spec fn chains(p: Piece, t: Seq<Option<Piece>>, n: int) -> Seq<MoveView>
    decreases search_size(p, t), 0int, n
    when t.len() == 32 && 1 <= p.position.num() <= 32 && 0 <= n <= single_captures(p, t).len()
    via chains_decreases
{
    if n == 0 {
        Seq::empty()
    } else {
        let c = single_captures(p, t)[n - 1];
        chains(p, t, n - 1) + chain_moves(c, piece_moves(c.new, applied(t, c)))
    }
}

#[via_fn]
proof fn chains_decreases(p: Piece, t: Seq<Option<Piece>>, n: int) {
    if n > 0 {
        lemma_capture_shrinks(p, t, n - 1);
    }
}

/// One jump of `p` on `t`: onto an empty square, over a piece of the other color.
pub open spec fn jump(p: Piece, t: Seq<Option<Piece>>, c: MoveView) -> bool {
    let land = c.new.position;
    let over = c.captures[0];
    &&& c.old == p
    &&& c.new.is_white == p.is_white
    &&& c.captures.len() == 1
    &&& 1 <= land.num() <= 32
    &&& 1 <= over.num() <= 32
    &&& land.num() != over.num()
    &&& land.num() != p.position.num()
    &&& over.num() != p.position.num()
    &&& tile_of(t, land) is None
    &&& tile_of(t, over) matches Some(q) && q.is_white != p.is_white
    &&& p.is_king ==> c.new.is_king
    &&& land.promotes(p.is_white) ==> c.new.is_king
}

proof fn lemma_ray(s: Position, d: (i8, i8), k: int)
    requires
        diagonal(d),
        ray_in(s, d, k),
    ensures
        is_dark(ray_x(s, d, k), ray_y(s, d, k)),
        1 <= ray_sq(s, d, k).num() <= 32,
        ray_sq(s, d, k).file() == ray_x(s, d, k),
        ray_sq(s, d, k).rank() == ray_y(s, d, k),
{
    position::lemma_odd_coords(s.num());
    position::lemma_notation_of_coords(ray_x(s, d, k), ray_y(s, d, k));
}

/// Squares at different steps of one ray are different squares.
proof fn lemma_ray_distinct(s: Position, d: (i8, i8), j: int, k: int)
    requires
        diagonal(d),
        ray_in(s, d, j),
        ray_in(s, d, k),
        j != k,
    ensures
        ray_sq(s, d, j).num() != ray_sq(s, d, k).num(),
{
    lemma_ray(s, d, j);
    lemma_ray(s, d, k);
}

/// The start square differs from every square along its rays.
proof fn lemma_ray_not_start(s: Position, d: (i8, i8), k: int)
    requires
        diagonal(d),
        ray_in(s, d, k),
        k >= 1,
    ensures
        ray_sq(s, d, k).num() != s.num(),
{
    lemma_ray(s, d, k);
    if 1 <= s.num() <= 32 {
        position::lemma_coords_of_notation(s.num());
    }
}

/// One more diagonal step along the ray, as `increment` computes it.
proof fn lemma_ray_step(s: Position, d: (i8, i8), k: int)
    requires
        diagonal(d),
        k >= 1,
        ray_in(s, d, k),
    ensures
        Position::coords_result(ray_sq(s, d, k).file() + d.0, ray_sq(s, d, k).rank() + d.1) == if ray_in(
            s,
            d,
            k + 1,
        ) {
            Ok::<Position, position::Error>(ray_sq(s, d, k + 1))
        } else {
            Err(position::Error::OutOfBounds)
        },
{
    lemma_ray(s, d, k);
    position::lemma_odd_coords(s.num());
}

/// The first diagonal step from a square, as `increment` computes it.
proof fn lemma_first_step(s: Position, d: (i8, i8))
    requires
        diagonal(d),
    ensures
        Position::coords_result(s.file() + d.0, s.rank() + d.1) == if ray_in(s, d, 1) {
            Ok::<Position, position::Error>(ray_sq(s, d, 1))
        } else {
            Err(position::Error::OutOfBounds)
        },
{
    position::lemma_odd_coords(s.num());
}

/// A run along a ray ends before the edge of the board.
proof fn lemma_ray_bound(s: Position, d: (i8, i8), k: int)
    requires
        diagonal(d),
        ray_in(s, d, k),
        1 <= s.num() <= 32,
    ensures
        k <= 7,
{
    position::lemma_coords_of_notation(s.num());
}

/// The first `j` squares of a run are on the board and empty.
proof fn lemma_run_len(t: Seq<Option<Piece>>, s: Position, d: (i8, i8), k: int, j: int)
    requires
        0 <= j < run_len(t, s, d, k),
    ensures
        ray_in(s, d, k + j),
        ray_tile(t, s, d, k + j) is None,
        0 <= k + j < 8,
    decreases j,
{
    if j > 0 {
        lemma_run_len(t, s, d, k + 1, j - 1);
    }
}

proof fn lemma_capture_result_jump(p: Piece, t: Seq<Option<Piece>>, d: (i8, i8))
    requires
        diagonal(d),
    ensures
        capture_result(p, t, d) matches Ok(ms) ==> forall|i: int|
            0 <= i < ms.len() ==> jump(p, t, #[trigger] ms[i]),
{
    let s = p.position;
    let k: int = if p.is_king {
        1 + run_len(t, s, d, 1) as int
    } else {
        1
    };
    if capture_result(p, t, d) is Ok {
        let ms = capture_result(p, t, d)->Ok_0;
        assert forall|i: int| 0 <= i < ms.len() implies jump(p, t, #[trigger] ms[i]) by {
            if i > 0 {
                lemma_run_len(t, s, d, k + 2, i - 1);
            }
            lemma_ray(s, d, k + 1 + i);
            lemma_ray(s, d, k);
            lemma_ray_distinct(s, d, k, k + 1 + i);
            lemma_ray_not_start(s, d, k);
            lemma_ray_not_start(s, d, k + 1 + i);
        }
    }
}

proof fn lemma_captures_upto_jump(p: Piece, t: Seq<Option<Piece>>, n: int)
    requires
        n <= 4,
    ensures
        forall|i: int|
            0 <= i < captures_upto(p, t, n).len() ==> jump(p, t, #[trigger] captures_upto(p, t, n)[i]),
    decreases n,
{
    if n > 0 {
        lemma_captures_upto_jump(p, t, n - 1);
        lemma_capture_result_jump(p, t, direction(n - 1));
        let a = captures_upto(p, t, n - 1);
        let b = found(capture_result(p, t, direction(n - 1)));
        assert forall|i: int| 0 <= i < (a + b).len() implies jump(p, t, #[trigger] (a + b)[i]) by {
            if i >= a.len() {
                assert((a + b)[i] == b[i - a.len()]);
            }
        }
    }
}

/// Every single capture is a jump.
proof fn lemma_single_captures_jump(p: Piece, t: Seq<Option<Piece>>)
    ensures
        forall|i: int|
            0 <= i < single_captures(p, t).len() ==> jump(p, t, #[trigger] single_captures(p, t)[i]),
{
    lemma_captures_upto_jump(p, t, 4);
}

proof fn lemma_occupied_update(t: Seq<Option<Piece>>, i: int, v: Option<Piece>, n: int)
    requires
        0 <= i < t.len(),
        n <= t.len(),
    ensures
        occupied(t.update(i, v), n) + (if i < n && t[i] is Some { 1int } else { 0int }) == occupied(t, n)
            + (if i < n && v is Some { 1int } else { 0int }),
    decreases n,
{
    if n > 0 {
        lemma_occupied_update(t, i, v, n - 1);
    }
}

/// After a jump, the search has less left to consume.
proof fn lemma_jump_shrinks(p: Piece, t: Seq<Option<Piece>>, c: MoveView)
    requires
        t.len() == 32,
        1 <= p.position.num() <= 32,
        jump(p, t, c),
    ensures
        search_size(c.new, applied(t, c)) < search_size(p, t),
{
    let land = c.new.position.num() - 1;
    let start = p.position.num() - 1;
    let over = c.captures[0].num() - 1;
    let a = t.update(land, Some(c.new));
    lemma_occupied_update(t, land, Some(c.new), 32);
    lemma_occupied_update(a, start, None, 32);
    let b = a.update(start, None);
    lemma_occupied_update(b, over, None, 32);
    let e = b.update(over, None);
    assert forall|i: int| 0 <= i < 32 implies e[i] == applied(t, c)[i] by {
        if crate::board::covers(c.captures, i + 1) {
            let j = choose|j: int| 0 <= j < c.captures.len() && (#[trigger] c.captures[j]).num() == i + 1;
            assert(j == 0);
        }
        if i == over {
            assert(c.captures[0].num() == i + 1);
        }
    }
    assert(e =~= applied(t, c));
}

/// Each single capture shrinks what the search has left, so chains end.
proof fn lemma_capture_shrinks(p: Piece, t: Seq<Option<Piece>>, i: int)
    requires
        t.len() == 32,
        1 <= p.position.num() <= 32,
        0 <= i < single_captures(p, t).len(),
    ensures
        search_size(single_captures(p, t)[i].new, applied(t, single_captures(p, t)[i]))
            < search_size(p, t),
{
    lemma_single_captures_jump(p, t);
    lemma_jump_shrinks(p, t, single_captures(p, t)[i]);
}

/// The direction searched at `i`.
fn direction_at(i: usize) -> (d: (i8, i8))
    requires
        i < 4,
    ensures
        d == direction(i as int),
        diagonal(d),
{
    if i == 0 {
        (-1, -1)
    } else if i == 1 {
        (-1, 1)
    } else if i == 2 {
        (1, -1)
    } else {
        (1, 1)
    }
}

/// Appends the squares of `src` to `dst`.
fn extend_squares(dst: &mut Vec<Position>, src: &Vec<Position>)
    ensures
        final(dst)@ == old(dst)@ + src@,
{
    let mut i: usize = 0;
    while i < src.len()
        invariant
            0 <= i <= src@.len(),
            dst@ == old(dst)@ + src@.subrange(0, i as int),
        decreases src@.len() - i,
    {
        dst.push(src[i]);
        i = i + 1;
        assert(src@.subrange(0, i as int) == src@.subrange(0, i - 1) + seq![src@[i - 1]]);
    }
    assert(src@.subrange(0, src@.len() as int) == src@);
}

proof fn lemma_views_append(a: Seq<CheckersMove>, b: Seq<CheckersMove>)
    ensures
        views(a + b) == views(a) + views(b),
{
    assert(views(a + b) =~= views(a) + views(b));
}

proof fn lemma_views_push(a: Seq<CheckersMove>, m: CheckersMove)
    ensures
        views(a.push(m)) == views(a).push(m@),
{
    assert(views(a.push(m)) =~= views(a).push(m@));
}

impl Piece {
    pub fn new(is_king: bool, is_white: bool, position: Position) -> (r: Self)
        ensures
            r == (Piece { is_king, is_white, position }),
    {
        Piece { is_king, is_white, position }
    }

    /// The plain (non-capturing) moves of this piece in `direction`.
    ///
    /// Fails with `NotKing` for a man stepping backwards, `OutOfBounds` at the
    /// edge, and `Occupied` when the first square is taken.
    pub fn moves(self, board: &Board, direction: (i8, i8)) -> (r: Result<Vec<CheckersMove>, Error>)
        requires
            diagonal(direction),
        ensures
            step_result(self, board@, direction) matches Ok(ms) ==> r matches Ok(v) && views(v@) == ms,
            step_result(self, board@, direction) matches Err(e) ==> r == Err::<Vec<CheckersMove>, Error>(e),
    {
        let ghost t = board@;
        let ghost s = self.position;
        if !self.is_king && ((direction.1 > 0 && self.is_white) || (direction.1 < 0 && !self.is_white)) {
            return Err(Error::Rules(RulesError::NotKing(self.position)));
        }
        proof {
            lemma_first_step(s, direction);
        }
        let first = match self.position.increment(direction) {
            Ok(p) => p,
            Err(e) => {
                return Err(Error::Position(e));
            },
        };
        if board.get_tile(first).is_some() {
            return Err(Error::Rules(RulesError::Occupied(first)));
        }
        let king = self.is_king || first.is_promoting(self);
        let mut moves: Vec<CheckersMove> = Vec::new();
        moves.push(CheckersMove::arbitrary(self, Piece::new(king, self.is_white, first), Vec::new()));
        proof {
            lemma_views_push(Seq::empty(), moves@[0]);
        }
        if self.is_king {
            // The square of the piece is one of the 32.
            let _start = self.position.notation();
            let mut pos = first;
            let mut k: usize = 1;
            let mut sliding = true;
            while sliding
                invariant
                    diagonal(direction),
                    self.is_king,
                    1 <= k <= 7,
                    1 <= s.num() <= 32,
                    s == self.position,
                    t == board@,
                    pos == ray_sq(s, direction, k as int),
                    ray_in(s, direction, k as int),
                    king,
                    run_len(t, s, direction, 1) == k + run_len(t, s, direction, k + 1),
                    !sliding ==> run_len(t, s, direction, k + 1) == 0,
                    views(moves@) == Seq::new(
                        k as nat,
                        |i: int| move_to(self, ray_sq(s, direction, i + 1), king, Seq::empty()),
                    ),
                decreases 8 - k + if sliding {
                    1int
                } else {
                    0int
                },
            {
                proof {
                    lemma_ray_step(s, direction, k as int);
                }
                match pos.increment(direction) {
                    Err(_) => {
                        sliding = false;
                    },
                    Ok(next) => {
                        if board.get_tile(next).is_some() {
                            sliding = false;
                        } else {
                            proof {
                                lemma_ray_bound(s, direction, k + 1);
                            }
                            let ghost before = moves@;
                            let m = CheckersMove::arbitrary(
                                self,
                                Piece::new(king, self.is_white, next),
                                Vec::new(),
                            );
                            assert(next == ray_sq(s, direction, k + 1));
                            assert(m@ == move_to(self, ray_sq(s, direction, k + 1), king, Seq::empty()));
                            moves.push(m);
                            proof {
                                lemma_views_push(before, m);
                            }
                            pos = next;
                            k = k + 1;
                            assert(views(moves@) =~= Seq::new(
                                k as nat,
                                |i: int| move_to(self, ray_sq(s, direction, i + 1), king, Seq::empty()),
                            ));
                        }
                    },
                }
            }
        } else {
            assert(views(moves@) =~= Seq::new(
                1,
                |i: int| move_to(self, ray_sq(s, direction, i + 1), king, Seq::empty()),
            ));
        }
        Ok(moves)
    }

    /// The single captures of this piece in `direction`.
    ///
    /// Fails with `OutOfBounds` when there is no square to jump or to land on,
    /// `Empty` when there is nothing to jump, `Occupied` when the landing square
    /// is taken, and `SameColorCapture` when the piece to jump is its own color.
    pub fn capture_in_direction(self, board: &Board, direction: (i8, i8)) -> (r: Result<
        Vec<CheckersMove>,
        Error,
    >)
        requires
            diagonal(direction),
        ensures
            capture_result(self, board@, direction) matches Ok(ms) ==> r matches Ok(v) && views(v@)
                == ms,
            capture_result(self, board@, direction) matches Err(e) ==> r == Err::<
                Vec<CheckersMove>,
                Error,
            >(e),
    {
        let ghost t = board@;
        let ghost s = self.position;
        // The square of the piece is one of the 32.
        let _start = self.position.notation();
        proof {
            lemma_first_step(s, direction);
        }
        let mut capture_pos = match self.position.increment(direction) {
            Ok(p) => p,
            Err(e) => {
                return Err(Error::Position(e));
            },
        };
        let mut k: usize = 1;
        if self.is_king {
            while board.get_tile(capture_pos).is_none()
                invariant
                    diagonal(direction),
                    1 <= k <= 7,
                    1 <= s.num() <= 32,
                    s == self.position,
                    t == board@,
                    capture_pos == ray_sq(s, direction, k as int),
                    ray_in(s, direction, k as int),
                    ray_in(s, direction, 1),
                    self.is_king,
                    run_len(t, s, direction, 1) == (k - 1) + run_len(t, s, direction, k as int),
                decreases 8 - k,
            {
                proof {
                    lemma_ray_step(s, direction, k as int);
                }
                match capture_pos.increment(direction) {
                    Ok(next) => {
                        proof {
                            lemma_ray_bound(s, direction, k + 1);
                        }
                        capture_pos = next;
                        k = k + 1;
                    },
                    Err(_) => {
                        assert(run_len(t, s, direction, k + 1) == 0);
                        assert(run_len(t, s, direction, k as int) == 1);
                        return Err(Error::Rules(RulesError::Empty(capture_pos)));
                    },
                }
            }
        }
        let ghost kk = k as int;
        assert(kk == if self.is_king {
            1 + run_len(t, s, direction, 1) as int
        } else {
            1
        });
        proof {
            lemma_ray_step(s, direction, kk);
        }
        let land = match capture_pos.increment(direction) {
            Ok(p) => p,
            Err(e) => {
                return Err(Error::Position(e));
            },
        };
        let other = match board.get_tile(capture_pos) {
            None => {
                return Err(Error::Rules(RulesError::Empty(capture_pos)));
            },
            Some(other) => other,
        };
        if board.get_tile(land).is_some() {
            return Err(Error::Rules(RulesError::Occupied(land)));
        }
        if self.is_white == other.is_white {
            return Err(
                Error::Rules(
                    RulesError::SameColorCapture {
                        capturing_pos: self.position,
                        captured_pos: other.position,
                        is_white: self.is_white,
                    },
                ),
            );
        }
        let king = self.is_king || land.is_promoting(self);
        let ghost caps = seq![capture_pos];
        let mut jumped: Vec<Position> = Vec::new();
        jumped.push(capture_pos);
        assert(jumped@ =~= caps);
        let mut captures: Vec<CheckersMove> = Vec::new();
        let m0 = CheckersMove::arbitrary(self, Piece::new(king, self.is_white, land), jumped);
        captures.push(m0);
        proof {
            lemma_views_push(Seq::empty(), m0);
        }
        if self.is_king {
            proof {
                lemma_ray_bound(s, direction, kk + 1);
            }
            let mut pos = land;
            let mut j: usize = 1;
            let mut sliding = true;
            while sliding
                invariant
                    diagonal(direction),
                    1 <= s.num() <= 32,
                    s == self.position,
                    t == board@,
                    1 <= kk,
                    1 <= j,
                    kk + j <= 7,
                    king,
                    caps == seq![ray_sq(s, direction, kk)],
                    capture_pos == ray_sq(s, direction, kk),
                    pos == ray_sq(s, direction, kk + j),
                    ray_in(s, direction, kk + j),
                    1 + run_len(t, s, direction, kk + 2) == j + run_len(t, s, direction, kk + 1 + j),
                    !sliding ==> run_len(t, s, direction, kk + 1 + j) == 0,
                    views(captures@) == Seq::new(
                        j as nat,
                        |i: int| move_to(self, ray_sq(s, direction, kk + 1 + i), king, caps),
                    ),
                decreases 8 - j + if sliding {
                    1int
                } else {
                    0int
                },
            {
                proof {
                    lemma_ray_step(s, direction, kk + j);
                }
                match pos.increment(direction) {
                    Err(_) => {
                        sliding = false;
                    },
                    Ok(next) => {
                        if board.get_tile(next).is_some() {
                            sliding = false;
                        } else {
                            proof {
                                lemma_ray_bound(s, direction, kk + j + 1);
                            }
                            let ghost before = captures@;
                            let mut jumped: Vec<Position> = Vec::new();
                            jumped.push(capture_pos);
                            assert(jumped@ =~= caps);
                            let m = CheckersMove::arbitrary(
                                self,
                                Piece::new(king, self.is_white, next),
                                jumped,
                            );
                            assert(next == ray_sq(s, direction, kk + 1 + j));
                            assert(m@ == move_to(self, ray_sq(s, direction, kk + 1 + j), king, caps));
                            captures.push(m);
                            proof {
                                lemma_views_push(before, m);
                            }
                            pos = next;
                            j = j + 1;
                            assert(views(captures@) =~= Seq::new(
                                j as nat,
                                |i: int| move_to(self, ray_sq(s, direction, kk + 1 + i), king, caps),
                            ));
                        }
                    },
                }
            }
        } else {
            assert(views(captures@) =~= Seq::new(
                1,
                |i: int| move_to(self, ray_sq(s, direction, kk + 1 + i), king, caps),
            ));
        }
        Ok(captures)
    }

    /// The single captures of this piece over the four directions.
    fn capture_in_all_directions(self, board: &Board) -> (r: Vec<CheckersMove>)
        ensures
            views(r@) == single_captures(self, board@),
    {
        let mut all: Vec<CheckersMove> = Vec::new();
        let mut i: usize = 0;
        while i < 4
            invariant
                0 <= i <= 4,
                views(all@) == captures_upto(self, board@, i as int),
            decreases 4 - i,
        {
            let d = direction_at(i);
            match self.capture_in_direction(board, d) {
                Ok(mut found_here) => {
                    let ghost a = all@;
                    let ghost b = found_here@;
                    all.append(&mut found_here);
                    proof {
                        lemma_views_append(a, b);
                    }
                },
                Err(_) => {
                    assert(views(all@) =~= views(all@) + Seq::<MoveView>::empty());
                },
            }
            i = i + 1;
        }
        all
    }

    /// The plain moves of this piece over the four directions.
    fn steps_in_all_directions(self, board: &Board) -> (r: Vec<CheckersMove>)
        ensures
            views(r@) == simple_moves(self, board@),
    {
        let mut all: Vec<CheckersMove> = Vec::new();
        let mut i: usize = 0;
        while i < 4
            invariant
                0 <= i <= 4,
                views(all@) == steps_upto(self, board@, i as int),
            decreases 4 - i,
        {
            let d = direction_at(i);
            match self.moves(board, d) {
                Ok(mut found_here) => {
                    let ghost a = all@;
                    let ghost b = found_here@;
                    all.append(&mut found_here);
                    proof {
                        lemma_views_append(a, b);
                    }
                },
                Err(_) => {
                    assert(views(all@) =~= views(all@) + Seq::<MoveView>::empty());
                },
            }
            i = i + 1;
        }
        all
    }

    /// Every complete move of this piece: each maximal capture chain when it can
    /// capture (every branch of every fork, whatever its length), its plain
    /// moves otherwise.
    pub fn all_possible_moves(self, board: &Board) -> (r: Vec<CheckersMove>)
        ensures
            views(r@) == piece_moves(self, board@),
        decreases search_size(self, board@),
    {
        let ghost t = board@;
        // The square of the piece is one of the 32.
        let _start = self.position.notation();
        proof {
            crate::board::lemma_board_len(*board);
        }
        let possible = self.capture_in_all_directions(board);
        if possible.len() == 0 {
            return self.steps_in_all_directions(board);
        }
        let mut all: Vec<CheckersMove> = Vec::new();
        let mut i: usize = 0;
        while i < possible.len()
            invariant
                0 <= i <= possible@.len(),
                t == board@,
                t.len() == 32,
                1 <= self.position.num() <= 32,
                views(possible@) == single_captures(self, t),
                views(all@) == chains(self, t, i as int),
            decreases possible@.len() - i,
        {
            let current = &possible[i];
            assert(current@ == single_captures(self, t)[i as int]);
            let next_board = board.applied_move_unchecked(current);
            let next_piece = current.new_piece();
            proof {
                lemma_capture_shrinks(self, t, i as int);
            }
            let further = next_piece.all_possible_moves(&next_board);
            let ghost conts = views(further@);
            proof {
                lemma_single_captures_jump(self, t);
                assert(jump(self, t, current@));
                lemma_moves_sound(next_piece, next_board@);
            }
            let mut chained: Vec<CheckersMove> = Vec::new();
            let mut j: usize = 0;
            while j < further.len()
                invariant
                    0 <= j <= further@.len(),
                    conts == views(further@),
                    t.len() == 32,
                    1 <= self.position.num() <= 32,
                    jump(self, t, current@),
                    next_board@ == applied(t, current@),
                    forall|k: int|
                        0 <= k < conts.len() ==> sound_move(
                            current@.new,
                            applied(t, current@),
                            #[trigger] conts[k],
                        ),
                    views(chained@) == continued(current@, conts.subrange(0, j as int)),
                decreases further@.len() - j,
            {
                let m = &further[j];
                assert(conts.subrange(0, j + 1).drop_last() =~= conts.subrange(0, j as int));
                assert(conts.subrange(0, j + 1).last() == m@);
                if m.captures().len() > 0 {
                    let mut squares: Vec<Position> = Vec::new();
                    extend_squares(&mut squares, m.captures());
                    extend_squares(&mut squares, current.captures());
                    proof {
                        assert(conts[j as int] == m@);
                        lemma_extend_sound(self, t, current@, m@);
                    }
                    let joined = CheckersMove::arbitrary(current.old_piece(), m.new_piece(), squares);
                    let ghost before = chained@;
                    chained.push(joined);
                    proof {
                        lemma_views_push(before, joined);
                    }
                } else {
                    assert(views(chained@) =~= views(chained@) + Seq::<MoveView>::empty());
                }
                j = j + 1;
            }
            assert(conts.subrange(0, further@.len() as int) =~= conts);
            if chained.len() == 0 {
                let mut squares: Vec<Position> = Vec::new();
                extend_squares(&mut squares, current.captures());
                let alone = CheckersMove::arbitrary(current.old_piece(), current.new_piece(), squares);
                chained.push(alone);
                proof {
                    lemma_views_push(Seq::empty(), alone);
                    assert(views(Seq::<CheckersMove>::empty()) =~= Seq::<MoveView>::empty());
                }
            }
            let ghost a = all@;
            let ghost b = chained@;
            all.append(&mut chained);
            proof {
                lemma_views_append(a, b);
            }
            i = i + 1;
        }
        all
    }
}

/// Whether a tile holds a piece of the color opposite to `is_white`.
pub open spec fn opponent_on(v: Option<Piece>, is_white: bool) -> bool {
    v matches Some(q) && q.is_white != is_white
}

/// What every move found for `p` on `t` satisfies: it moves `p` and keeps its
/// color, never turns a king back into a man, crowns a man that ends on its
/// promotion rank, and captures distinct squares that each held a piece of
/// the other color.
pub open spec fn sound_move(p: Piece, t: Seq<Option<Piece>>, m: MoveView) -> bool {
    &&& m.old == p
    &&& m.new.is_white == p.is_white
    &&& p.is_king ==> m.new.is_king
    &&& m.new.position.promotes(p.is_white) ==> m.new.is_king
    &&& 1 <= m.new.position.num() <= 32
    &&& m.captures.no_duplicates()
    &&& forall|j: int|
        0 <= j < m.captures.len() ==> 1 <= (#[trigger] m.captures[j]).num() <= 32 && opponent_on(
            tile_of(t, m.captures[j]),
            p.is_white,
        )
}

proof fn lemma_step_result_sound(p: Piece, t: Seq<Option<Piece>>, d: (i8, i8))
    requires
        diagonal(d),
    ensures
        forall|i: int|
            0 <= i < found(step_result(p, t, d)).len() ==> sound_move(
                p,
                t,
                #[trigger] found(step_result(p, t, d))[i],
            ),
{
    let ms = found(step_result(p, t, d));
    assert forall|i: int| 0 <= i < ms.len() implies sound_move(p, t, #[trigger] ms[i]) by {
        if p.is_king && i > 0 {
            lemma_run_len(t, p.position, d, 1, i);
        }
        lemma_ray(p.position, d, i + 1);
        assert(ms[i].captures =~= Seq::<Position>::empty());
    }
}

proof fn lemma_steps_upto_sound(p: Piece, t: Seq<Option<Piece>>, n: int)
    requires
        n <= 4,
    ensures
        forall|i: int|
            0 <= i < steps_upto(p, t, n).len() ==> sound_move(p, t, #[trigger] steps_upto(p, t, n)[i]),
    decreases n,
{
    if n > 0 {
        lemma_steps_upto_sound(p, t, n - 1);
        lemma_step_result_sound(p, t, direction(n - 1));
        let a = steps_upto(p, t, n - 1);
        let b = found(step_result(p, t, direction(n - 1)));
        assert forall|i: int| 0 <= i < (a + b).len() implies sound_move(p, t, #[trigger] (a + b)[i]) by {
            if i >= a.len() {
                assert((a + b)[i] == b[i - a.len()]);
            }
        }
    }
}

/// A jump is itself a sound move.
proof fn lemma_jump_sound(p: Piece, t: Seq<Option<Piece>>, c: MoveView)
    requires
        jump(p, t, c),
    ensures
        sound_move(p, t, c),
{
}

/// Tiles that a jump leaves alone keep their pieces.
proof fn lemma_jump_keeps(p: Piece, t: Seq<Option<Piece>>, c: MoveView, x: Position)
    requires
        t.len() == 32,
        1 <= p.position.num() <= 32,
        jump(p, t, c),
        1 <= x.num() <= 32,
        opponent_on(tile_of(applied(t, c), x), p.is_white),
    ensures
        x.num() != c.captures[0].num(),
        tile_of(t, x) == tile_of(applied(t, c), x),
{
    if crate::board::covers(c.captures, x.num()) {
        let j = choose|j: int| 0 <= j < c.captures.len() && (#[trigger] c.captures[j]).num() == x.num();
        assert(j == 0);
    }
    if x.num() == c.captures[0].num() {
        assert(crate::board::covers(c.captures, x.num()));
    }
}

/// A sound continuation of a jump, joined to it, is a sound move of the
/// jumping piece.
proof fn lemma_extend_sound(p: Piece, t: Seq<Option<Piece>>, c: MoveView, k: MoveView)
    requires
        t.len() == 32,
        1 <= p.position.num() <= 32,
        jump(p, t, c),
        sound_move(c.new, applied(t, c), k),
    ensures
        sound_move(p, t, MoveView { old: c.old, new: k.new, captures: k.captures + c.captures }),
{
    let m = MoveView { old: c.old, new: k.new, captures: k.captures + c.captures };
    let over = c.captures[0];
    assert forall|j: int| 0 <= j < k.captures.len() implies (#[trigger] k.captures[j]).num()
        != over.num() && opponent_on(tile_of(t, k.captures[j]), p.is_white) by {
        lemma_jump_keeps(p, t, c, k.captures[j]);
    }
    assert forall|j: int| 0 <= j < m.captures.len() implies 1 <= (#[trigger] m.captures[j]).num()
        <= 32 && opponent_on(tile_of(t, m.captures[j]), p.is_white) by {
        if j < k.captures.len() {
            assert(m.captures[j] == k.captures[j]);
        } else {
            assert(m.captures[j] == over);
        }
    }
    assert forall|a: int, b: int|
        0 <= a < m.captures.len() && 0 <= b < m.captures.len() && a != b implies m.captures[a]
        != m.captures[b] by {
        if a < k.captures.len() && b < k.captures.len() {
            assert(m.captures[a] == k.captures[a] && m.captures[b] == k.captures[b]);
        } else if a < k.captures.len() {
            assert(m.captures[a] == k.captures[a] && m.captures[b] == over);
        } else if b < k.captures.len() {
            assert(m.captures[b] == k.captures[b] && m.captures[a] == over);
        }
    }
}

proof fn lemma_continued_sound(p: Piece, t: Seq<Option<Piece>>, c: MoveView, conts: Seq<MoveView>)
    requires
        t.len() == 32,
        1 <= p.position.num() <= 32,
        jump(p, t, c),
        forall|i: int| 0 <= i < conts.len() ==> sound_move(c.new, applied(t, c), #[trigger] conts[i]),
    ensures
        forall|i: int|
            0 <= i < continued(c, conts).len() ==> sound_move(p, t, #[trigger] continued(c, conts)[i]),
    decreases conts.len(),
{
    if conts.len() > 0 {
        let rest = conts.drop_last();
        lemma_continued_sound(p, t, c, rest);
        let k = conts.last();
        assert(sound_move(c.new, applied(t, c), conts[conts.len() - 1]));
        let tail = if k.is_capture() {
            seq![MoveView { old: c.old, new: k.new, captures: k.captures + c.captures }]
        } else {
            Seq::empty()
        };
        if k.is_capture() {
            lemma_extend_sound(p, t, c, k);
        }
        let whole = continued(c, rest) + tail;
        assert(continued(c, conts) == whole);
        assert forall|i: int| 0 <= i < whole.len() implies sound_move(p, t, #[trigger] whole[i]) by {
            if i >= continued(c, rest).len() {
                assert(whole[i] == tail[i - continued(c, rest).len()]);
            }
        }
    }
}

proof fn lemma_chains_sound(p: Piece, t: Seq<Option<Piece>>, n: int)
    requires
        t.len() == 32,
        1 <= p.position.num() <= 32,
        0 <= n <= single_captures(p, t).len(),
    ensures
        forall|i: int| 0 <= i < chains(p, t, n).len() ==> sound_move(p, t, #[trigger] chains(p, t, n)[i]),
    decreases search_size(p, t), 0int, n,
{
    if n > 0 {
        lemma_chains_sound(p, t, n - 1);
        let c = single_captures(p, t)[n - 1];
        lemma_single_captures_jump(p, t);
        lemma_capture_shrinks(p, t, n - 1);
        let b2 = applied(t, c);
        assert(b2.len() == 32);
        lemma_moves_sound(c.new, b2);
        lemma_continued_sound(p, t, c, piece_moves(c.new, b2));
        let a = chains(p, t, n - 1);
        let b = chain_moves(c, piece_moves(c.new, b2));
        lemma_jump_sound(p, t, c);
        assert(chains(p, t, n) == a + b);
        assert forall|i: int| 0 <= i < (a + b).len() implies sound_move(p, t, #[trigger] (a + b)[i]) by {
            if i >= a.len() {
                assert((a + b)[i] == b[i - a.len()]);
            }
        }
    }
}

/// Every move that the search finds for a piece is sound: it keeps the piece's
/// color, never turns a king back into a man, crowns a man that ends on its
/// promotion rank (after a plain step or at the end of a capture chain), and
/// captures distinct squares, each holding a piece of the other color.
pub proof fn lemma_moves_sound(p: Piece, t: Seq<Option<Piece>>)
    requires
        t.len() == 32,
        1 <= p.position.num() <= 32,
    ensures
        forall|i: int|
            0 <= i < piece_moves(p, t).len() ==> sound_move(p, t, #[trigger] piece_moves(p, t)[i]),
    decreases search_size(p, t), 1int, 0int,
{
    if single_captures(p, t).len() == 0 {
        lemma_steps_upto_sound(p, t, 4);
        assert(piece_moves(p, t) == steps_upto(p, t, 4));
    } else {
        lemma_chains_sound(p, t, single_captures(p, t).len() as int);
        assert(piece_moves(p, t) == chains(p, t, single_captures(p, t).len() as int));
    }
}

/// On a board where every square but the start is empty, a run along a ray
/// reaches the edge.
proof fn lemma_run_to_edge(t: Seq<Option<Piece>>, s: Position, d: (i8, i8), k: int)
    requires
        diagonal(d),
        1 <= s.num() <= 32,
        t.len() == 32,
        k >= 1,
        forall|i: int| 0 <= i < 32 && i != s.num() - 1 ==> #[trigger] t[i] is None,
    ensures
        !ray_in(s, d, k + run_len(t, s, d, k)),
    decreases 8 - k,
{
    if ray_in(s, d, k) {
        lemma_ray_bound(s, d, k);
        lemma_ray(s, d, k);
        lemma_ray_not_start(s, d, k);
        lemma_run_to_edge(t, s, d, k + 1);
    }
}

/// A piece alone on the board has no capture in any direction.
proof fn lemma_alone_no_capture(p: Piece, t: Seq<Option<Piece>>, d: (i8, i8))
    requires
        diagonal(d),
        1 <= p.position.num() <= 32,
        t.len() == 32,
        forall|i: int| 0 <= i < 32 && i != p.position.num() - 1 ==> #[trigger] t[i] is None,
    ensures
        capture_result(p, t, d) is Err,
{
    let s = p.position;
    if ray_in(s, d, 1) {
        lemma_ray(s, d, 1);
        lemma_ray_not_start(s, d, 1);
        if p.is_king {
            lemma_run_to_edge(t, s, d, 1);
        }
    }
}

proof fn lemma_alone_captures_upto(p: Piece, t: Seq<Option<Piece>>, n: int)
    requires
        1 <= p.position.num() <= 32,
        t.len() == 32,
        forall|i: int| 0 <= i < 32 && i != p.position.num() - 1 ==> #[trigger] t[i] is None,
        n <= 4,
    ensures
        captures_upto(p, t, n).len() == 0,
    decreases n,
{
    if n > 0 {
        lemma_alone_captures_upto(p, t, n - 1);
        lemma_alone_no_capture(p, t, direction(n - 1));
    }
}

proof fn lemma_steps_plain(p: Piece, t: Seq<Option<Piece>>, n: int)
    ensures
        forall|i: int|
            0 <= i < steps_upto(p, t, n).len() ==> !(#[trigger] steps_upto(p, t, n)[i]).is_capture(),
    decreases n,
{
    if n > 0 {
        lemma_steps_plain(p, t, n - 1);
        let a = steps_upto(p, t, n - 1);
        let b = found(step_result(p, t, direction(n - 1)));
        assert forall|i: int| 0 <= i < (a + b).len() implies !(#[trigger] (a + b)[i]).is_capture() by {
            if i >= a.len() {
                assert((a + b)[i] == b[i - a.len()]);
            }
        }
    }
}

proof fn lemma_continued_plain(first: MoveView, conts: Seq<MoveView>)
    requires
        forall|i: int| 0 <= i < conts.len() ==> !(#[trigger] conts[i]).is_capture(),
    ensures
        continued(first, conts).len() == 0,
    decreases conts.len(),
{
    if conts.len() > 0 {
        assert(!conts[conts.len() - 1].is_capture());
        lemma_continued_plain(first, conts.drop_last());
    }
}

/// The jump of `p` over the square next to it in direction `d`.
pub open spec fn lone_jump(p: Piece, d: (i8, i8)) -> MoveView {
    let land = ray_sq(p.position, d, 2);
    move_to(p, land, land.promotes(p.is_white), seq![ray_sq(p.position, d, 1)])
}

proof fn lemma_other_direction_fails(p: Piece, t: Seq<Option<Piece>>, d: (i8, i8), e: (i8, i8))
    requires
        diagonal(d),
        diagonal(e),
        d != e,
        !p.is_king,
        1 <= p.position.num() <= 32,
        t.len() == 32,
        ray_in(p.position, d, 1),
        forall|i: int|
            0 <= i < 32 && i != p.position.num() - 1 && i != ray_sq(p.position, d, 1).num() - 1
                ==> #[trigger] t[i] is None,
    ensures
        capture_result(p, t, e) is Err,
{
    let s = p.position;
    lemma_ray(s, d, 1);
    if ray_in(s, e, 1) {
        lemma_ray(s, e, 1);
        lemma_ray_not_start(s, e, 1);
    }
}

/// A man whose only neighbour is one piece of the other color, diagonally
/// next to it with an empty square beyond, on an otherwise empty board, has
/// exactly one move: the jump over that piece.
pub proof fn lemma_lone_jump(p: Piece, t: Seq<Option<Piece>>, d: (i8, i8))
    requires
        diagonal(d),
        !p.is_king,
        1 <= p.position.num() <= 32,
        t.len() == 32,
        ray_in(p.position, d, 2),
        opponent_on(ray_tile(t, p.position, d, 1), p.is_white),
        forall|i: int|
            0 <= i < 32 && i != p.position.num() - 1 && i != ray_sq(p.position, d, 1).num() - 1
                ==> #[trigger] t[i] is None,
    ensures
        piece_moves(p, t) == seq![lone_jump(p, d)],
        applied(t, lone_jump(p, d)) == Seq::new(
            32,
            |i: int|
                if i == ray_sq(p.position, d, 2).num() - 1 {
                    Some(lone_jump(p, d).new)
                } else {
                    None
                },
        ),
{
    let s = p.position;
    let m = lone_jump(p, d);
    lemma_ray(s, d, 1);
    lemma_ray(s, d, 2);
    lemma_ray_distinct(s, d, 1, 2);
    lemma_ray_not_start(s, d, 1);
    lemma_ray_not_start(s, d, 2);
    assert(found(capture_result(p, t, d)) =~= seq![m]);
    assert forall|i: int| 0 <= i < 4 && direction(i) != d implies found(
        capture_result(p, t, #[trigger] direction(i)),
    ) =~= Seq::<MoveView>::empty() by {
        lemma_other_direction_fails(p, t, d, direction(i));
    }
    reveal_with_fuel(captures_upto, 5);
    assert(single_captures(p, t) =~= seq![m]);
    let b2 = applied(t, m);
    let land = ray_sq(s, d, 2);
    assert forall|i: int| 0 <= i < 32 implies #[trigger] b2[i] == if i == land.num() - 1 {
        Some(m.new)
    } else {
        None
    } by {
        if crate::board::covers(m.captures, i + 1) {
            let j = choose|j: int| 0 <= j < m.captures.len() && (#[trigger] m.captures[j]).num() == i + 1;
            assert(j == 0);
        }
        if i == ray_sq(s, d, 1).num() - 1 {
            assert(crate::board::covers(m.captures, i + 1)) by {
                assert(m.captures[0].num() == i + 1);
            }
        }
    }
    assert(b2 =~= Seq::new(32, |i: int| if i == land.num() - 1 { Some(m.new) } else { None }));
    lemma_alone_captures_upto(m.new, b2, 4);
    lemma_steps_plain(m.new, b2, 4);
    assert(piece_moves(m.new, b2) == steps_upto(m.new, b2, 4));
    lemma_continued_plain(m, piece_moves(m.new, b2));
    assert(single_captures(p, t).len() == 1);
    assert(single_captures(p, t)[0] == m);
    assert(chain_moves(m, piece_moves(m.new, b2)) == seq![m]);
    assert(chains(p, t, 0) == Seq::<MoveView>::empty());
    assert(chains(p, t, 1) == chains(p, t, 0) + chain_moves(m, piece_moves(m.new, applied(t, m))));
    assert(chains(p, t, 1) =~= seq![m]);
    assert(piece_moves(p, t) == chains(p, t, 1));
}

} // verus!

//! A move: the piece before, the piece after, and the squares it captured.
use vstd::prelude::*;

use crate::piece::Piece;
use crate::position::Position;
use vstd::string::StringExecFns;

verus! {

/// What a move is, mathematically.
pub struct MoveView {
    pub old: Piece,
    pub new: Piece,
    pub captures: Seq<Position>,
}

impl MoveView {
    pub open spec fn is_capture(self) -> bool {
        self.captures.len() > 0
    }

    /// What holds of every move: the piece keeps its color, a king stays a
    /// king, and no square is captured twice.
    pub open spec fn well_formed(self) -> bool {
        &&& self.new.is_white == self.old.is_white
        &&& self.old.is_king ==> self.new.is_king
        &&& self.captures.no_duplicates()
    }
}

/// The moves of `s` that capture, in their order.
pub open spec fn captures_only(s: Seq<MoveView>) -> Seq<MoveView> {
    s.filter(|m: MoveView| m.is_capture())
}

/// The views of a list of moves.
pub open spec fn views(v: Seq<CheckersMove>) -> Seq<MoveView> {
    v.map_values(|m: CheckersMove| m@)
}

/// Whether two lists hold the same squares, in whatever order.
pub open spec fn same_squares(a: Seq<Position>, b: Seq<Position>) -> bool {
    forall|x: Position| a.contains(x) <==> b.contains(x)
}

/// The character of the decimal digit `d`.
pub open spec fn digit(d: int) -> char {
    if d == 0 {
        '0'
    } else if d == 1 {
        '1'
    } else if d == 2 {
        '2'
    } else if d == 3 {
        '3'
    } else if d == 4 {
        '4'
    } else if d == 5 {
        '5'
    } else if d == 6 {
        '6'
    } else if d == 7 {
        '7'
    } else if d == 8 {
        '8'
    } else {
        '9'
    }
}

/// The decimal digits of `n`.
pub open spec fn decimal(n: nat) -> Seq<char>
    decreases n,
{
    if n < 10 {
        seq![digit(n as int)]
    } else {
        decimal(n / 10) + seq![digit((n % 10) as int)]
    }
}

/// A way of writing a square in move notation.
pub trait SquareNotation {
    /// The text of square `p`.
    spec fn text_of(p: Position) -> Seq<char>;

    fn square_text(p: Position) -> (r: String)
        ensures
            r@ == Self::text_of(p),
    ;
}

/// Squares written by number, as `29`.
impl SquareNotation for u8 {
    open spec fn text_of(p: Position) -> Seq<char> {
        decimal(p.num() as nat)
    }

    fn square_text(p: Position) -> (r: String) {
        let mut s = String::new();
        append_number(&mut s, p.notation() as usize);
        s
    }
}

/// Squares written as (file, rank) pairs, as `(0, 7)`.
impl SquareNotation for (usize, usize) {
    open spec fn text_of(p: Position) -> Seq<char> {
        seq!['('] + decimal(p.file() as nat) + seq![',', ' '] + decimal(p.rank() as nat) + seq![')']
    }

    fn square_text(p: Position) -> (r: String) {
        let (x, y) = p.coords();
        let mut s = String::new();
        proof {
            reveal_strlit("(");
            reveal_strlit(", ");
            reveal_strlit(")");
        }
        s.append("(");
        append_number(&mut s, x);
        s.append(", ");
        append_number(&mut s, y);
        s.append(")");
        s
    }
}

fn digit_text(d: usize) -> (r: &'static str)
    requires
        d < 10,
    ensures
        r@ == seq![digit(d as int)],
{
    proof {
        reveal_strlit("0");
        reveal_strlit("1");
        reveal_strlit("2");
        reveal_strlit("3");
        reveal_strlit("4");
        reveal_strlit("5");
        reveal_strlit("6");
        reveal_strlit("7");
        reveal_strlit("8");
        reveal_strlit("9");
    }
    if d == 0 {
        "0"
    } else if d == 1 {
        "1"
    } else if d == 2 {
        "2"
    } else if d == 3 {
        "3"
    } else if d == 4 {
        "4"
    } else if d == 5 {
        "5"
    } else if d == 6 {
        "6"
    } else if d == 7 {
        "7"
    } else if d == 8 {
        "8"
    } else {
        "9"
    }
}

fn append_number(s: &mut String, n: usize)
    requires
        n < 100,
    ensures
        final(s)@ == old(s)@ + decimal(n as nat),
{
    if n >= 10 {
        s.append(digit_text(n / 10));
        assert(decimal((n / 10) as nat) == seq![digit((n / 10) as int)]);
    }
    s.append(digit_text(n % 10));
}

/// The captured squares written one after the other, each followed by `x`.
pub open spec fn hops<T: SquareNotation>(captures: Seq<Position>) -> Seq<char>
    decreases captures.len(),
{
    if captures.len() == 0 {
        Seq::empty()
    } else {
        hops::<T>(captures.drop_last()) + T::text_of(captures.last()) + seq!['x']
    }
}

/// The notation of a move: `old-new` for a plain move; `oldxnew` for a
/// capture when collapsed, else `oldxc1xc2x...xnew`, listing the captured
/// squares (not the landing squares between jumps).
pub open spec fn move_text<T: SquareNotation>(m: MoveView, collapsed: bool) -> Seq<char> {
    let old = T::text_of(m.old.position);
    let new = T::text_of(m.new.position);
    if m.captures.len() == 0 {
        old + seq!['-'] + new
    } else if collapsed {
        old + seq!['x'] + new
    } else {
        old + seq!['x'] + hops::<T>(m.captures) + new
    }
}

/// A move of one piece, with the squares of the pieces it jumped.
#[derive(Debug)]
pub struct CheckersMove {
    pub(crate) old: Piece,
    pub(crate) new: Piece,
    pub(crate) captures: Vec<Position>,
}

impl View for CheckersMove {
    type V = MoveView;

    closed spec fn view(&self) -> MoveView {
        MoveView { old: self.old, new: self.new, captures: self.captures@ }
    }
}

impl CheckersMove {
    #[verifier::type_invariant]
    spec fn inv(self) -> bool {
        self@.well_formed()
    }

    /// A move made of the given parts, taken as they are.
    pub fn arbitrary(old: Piece, new: Piece, captures: Vec<Position>) -> (r: Self)
        requires
            (MoveView { old, new, captures: captures@ }).well_formed(),
        ensures
            r@ == (MoveView { old, new, captures: captures@ }),
    {
        CheckersMove { old, new, captures }
    }

    /// A move with the same parts as this one.
    pub(crate) fn duplicate(&self) -> (r: Self)
        ensures
            r@ == self@,
    {
        proof {
            use_type_invariant(self);
        }
        let mut squares: Vec<Position> = Vec::new();
        let mut i: usize = 0;
        while i < self.captures.len()
            invariant
                0 <= i <= self.captures@.len(),
                squares@ == self.captures@.subrange(0, i as int),
            decreases self.captures@.len() - i,
        {
            squares.push(self.captures[i]);
            i = i + 1;
            assert(squares@ =~= self.captures@.subrange(0, i as int));
        }
        assert(squares@ =~= self.captures@);
        CheckersMove { old: self.old, new: self.new, captures: squares }
    }

    /// The move in notation, squares written as `T` writes them.
    pub fn to_string<T: SquareNotation>(&self, collapsed: bool) -> (r: String)
        ensures
            r@ == move_text::<T>(self@, collapsed),
    {
        proof {
            reveal_strlit("-");
            reveal_strlit("x");
        }
        let mut buf = T::square_text(self.old.position);
        if self.captures.len() == 0 {
            buf.append("-");
        } else {
            buf.append("x");
            if !collapsed {
                let mut i: usize = 0;
                while i < self.captures.len()
                    invariant
                        0 <= i <= self.captures@.len(),
                        buf@ == T::text_of(self.old.position) + seq!['x'] + hops::<T>(
                            self.captures@.subrange(0, i as int),
                        ),
                    decreases self.captures@.len() - i,
                {
                    let ghost before = buf@;
                    let hop = T::square_text(self.captures[i]);
                    buf.append(hop.as_str());
                    buf.append("x");
                    proof {
                        reveal_strlit("x");
                        let prev = self.captures@.subrange(0, i as int);
                        let next = self.captures@.subrange(0, i + 1);
                        assert(next.drop_last() =~= prev);
                        assert(next.last() == self.captures@[i as int]);
                        assert(hops::<T>(next) == hops::<T>(prev) + T::text_of(self.captures@[i as int])
                            + seq!['x']);
                        assert(buf@ =~= T::text_of(self.old.position) + seq!['x'] + hops::<T>(next));
                    }
                    i = i + 1;
                }
                assert(self.captures@.subrange(0, self.captures@.len() as int) =~= self.captures@);
            }
        }
        let last = T::square_text(self.new.position);
        buf.append(last.as_str());
        buf
    }

    /// The squares of the captured pieces, each listed once.
    pub fn captures(&self) -> (r: &Vec<Position>)
        ensures
            r@ == self@.captures,
            self@.well_formed(),
    {
        proof {
            use_type_invariant(self);
        }
        &self.captures
    }

    /// The piece before the move.
    pub fn old_piece(&self) -> (r: Piece)
        ensures
            r == self@.old,
    {
        self.old
    }

    /// The piece after the move.
    pub fn new_piece(&self) -> (r: Piece)
        ensures
            r == self@.new,
    {
        self.new
    }
}

fn holds_square(v: &Vec<Position>, x: Position) -> (r: bool)
    ensures
        r == v@.contains(x),
{
    let mut i: usize = 0;
    while i < v.len()
        invariant
            0 <= i <= v@.len(),
            forall|j: int| 0 <= j < i ==> v@[j] != x,
        decreases v@.len() - i,
    {
        if v[i] == x {
            return true;
        }
        i = i + 1;
    }
    false
}

fn covers_squares(a: &Vec<Position>, b: &Vec<Position>) -> (r: bool)
    ensures
        r == (forall|x: Position| a@.contains(x) ==> b@.contains(x)),
{
    let mut i: usize = 0;
    while i < a.len()
        invariant
            0 <= i <= a@.len(),
            forall|j: int| 0 <= j < i ==> b@.contains(#[trigger] a@[j]),
        decreases a@.len() - i,
    {
        if !holds_square(b, a[i]) {
            return false;
        }
        i = i + 1;
    }
    true
}

impl Clone for CheckersMove {
    fn clone(&self) -> Self {
        self.duplicate()
    }
}

/// Two moves are equal when they move the same piece to the same result and
/// capture the same squares, in whatever order.
impl PartialEq for CheckersMove {
    fn eq(&self, other: &Self) -> (r: bool) {
        self.old == other.old && self.new == other.new && covers_squares(&self.captures, &other.captures)
            && covers_squares(&other.captures, &self.captures)
    }
}

impl vstd::std_specs::cmp::PartialEqSpecImpl for CheckersMove {
    open spec fn obeys_eq_spec() -> bool {
        true
    }

    open spec fn eq_spec(&self, other: &Self) -> bool {
        self@.old == other@.old && self@.new == other@.new && same_squares(
            self@.captures,
            other@.captures,
        )
    }
}

} // verus!

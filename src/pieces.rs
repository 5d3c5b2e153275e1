//! Piece kinds, sides and the sliding-move rule.
use vstd::prelude::*;

verus! {

/// What a square of the grid holds. `Wall` is never stored: it is what a
/// lookup outside the board answers. `Castle` marks the empty throne.
#[derive(Clone, Copy, PartialEq, Eq, Debug, Structural)]
pub enum PieceType {
    Defender,
    Attacker,
    King,
    Empty,
    Wall,
    Castle,
}

impl PieceType {
    /// `self` is hostile to a piece of kind `other`. The throne is hostile
    /// to everything; empty squares and the edge to nothing.
    pub open spec fn hostile_to(self, other: PieceType) -> bool {
        match self {
            PieceType::Empty | PieceType::Wall => false,
            PieceType::Attacker => other == PieceType::Defender || other == PieceType::King,
            PieceType::Defender | PieceType::King => other == PieceType::Attacker,
            PieceType::Castle => true,
        }
    }

    /// A square that holds one of the pieces in play.
    pub open spec fn is_piece(self) -> bool {
        self == PieceType::Defender || self == PieceType::Attacker || self == PieceType::King
    }

    pub fn is_enemy(&self, other: PieceType) -> (r: bool)
        ensures
            r == self.hostile_to(other),
    {
        match self {
            PieceType::Empty | PieceType::Wall => false,
            PieceType::Attacker => other == PieceType::Defender || other == PieceType::King,
            PieceType::Defender | PieceType::King => other == PieceType::Attacker,
            PieceType::Castle => true,
        }
    }

    pub fn is_friendly(&self, other: PieceType) -> (r: bool)
        ensures
            r == !self.hostile_to(other),
    {
        !self.is_enemy(other)
    }
}


/// The two sides of the game. The king plays for the defenders.
#[derive(Clone, Copy, PartialEq, Eq, Debug, Structural)]
pub enum Player {
    Defender,
    Attacker,
}

/// A piece in play: its side, its square, and whether it is the king.
#[derive(Clone, Copy, PartialEq, Eq, Debug, Structural)]
pub struct Piece {
    pub player: Player,
    pub x: i8,
    pub y: i8,
    pub is_king: bool,
}

/// A square of the 11x11 board.
pub open spec fn on_board(p: (int, int)) -> bool {
    0 <= p.0 <= 10 && 0 <= p.1 <= 10
}

/// The four corners of the board.
pub open spec fn corner(p: (int, int)) -> bool {
    (p.0 == 0 || p.0 == 10) && (p.1 == 0 || p.1 == 10)
}

/// The squares where only the king may stop: the corners and the throne.
pub open spec fn restricted(p: (int, int)) -> bool {
    corner(p) || p == (5int, 5int)
}

pub open spec fn pos(p: (i8, i8)) -> (int, int) {
    (p.0 as int, p.1 as int)
}

/// `c` lies on the way from `a` to `b`: after `a`, up to and including `b`.
pub open spec fn on_the_way(a: int, b: int, c: int) -> bool {
    (a < c && c <= b) || (b <= c && c < a)
}

/// `p` stands on the slide from `begin` to `end` (the start square excluded).
pub open spec fn blocks(p: Piece, begin: (int, int), end: (int, int)) -> bool {
    ||| begin.0 == end.0 && p.x == begin.0 && on_the_way(begin.1, end.1, p.y as int)
    ||| begin.1 == end.1 && p.y == begin.1 && on_the_way(begin.0, end.0, p.x as int)
}

/// No piece of `pieces` stands on the slide from `begin` to `end`.
pub open spec fn path_clear(begin: (int, int), end: (int, int), pieces: Seq<Piece>) -> bool {
    forall|i: int| 0 <= i < pieces.len() ==> !blocks(#[trigger] pieces[i], begin, end)
}

/// A move along a row or a column that goes somewhere.
pub open spec fn straight(begin: (int, int), end: (int, int)) -> bool {
    (begin.0 == end.0 && begin.1 != end.1) || (begin.1 == end.1 && begin.0 != end.0)
}

impl Piece {
    pub open spec fn at(self) -> (int, int) {
        (self.x as int, self.y as int)
    }

    pub open spec fn kind(self) -> PieceType {
        if self.is_king {
            PieceType::King
        } else if self.player == Player::Defender {
            PieceType::Defender
        } else {
            PieceType::Attacker
        }
    }

    /// The piece may slide to `dest` among `pieces`: straight, over no
    /// piece, and, unless it is the king, not onto a corner or the throne.
    pub open spec fn may_move(self, dest: (int, int), pieces: Seq<Piece>) -> bool {
        &&& path_clear(self.at(), dest, pieces)
        &&& straight(self.at(), dest)
        &&& (self.is_king || !restricted(dest))
    }

    pub fn to_piecetype(self) -> (r: PieceType)
        ensures
            r == self.kind(),
    {
        if self.is_king {
            PieceType::King
        } else if self.player == Player::Defender {
            PieceType::Defender
        } else {
            PieceType::Attacker
        }
    }

    pub fn is_move_valid(&self, new_position: (i8, i8), pieces: Vec<Piece>) -> (r: bool)
        ensures
            r == self.may_move(pos(new_position), pieces@),
    {
        is_path_empty((self.x, self.y), new_position, &pieces) && ((self.x == new_position.0
            && self.y != new_position.1) || (self.y == new_position.1 && self.x
            != new_position.0)) && (self.is_king || !is_restricted(new_position))
    }
}

pub fn is_corner(p: (i8, i8)) -> (r: bool)
    ensures
        r == corner(pos(p)),
{
    (p.0 == 0 || p.0 == 10) && (p.1 == 0 || p.1 == 10)
}

pub fn is_restricted(p: (i8, i8)) -> (r: bool)
    ensures
        r == restricted(pos(p)),
{
    is_corner(p) || (p.0 == 5 && p.1 == 5)
}

fn is_path_empty(begin: (i8, i8), end: (i8, i8), pieces: &Vec<Piece>) -> (r: bool)
    ensures
        r == path_clear(pos(begin), pos(end), pieces@),
{
    // Same column
    if begin.0 == end.0 {
        let mut i: usize = 0;
        while i < pieces.len()
            invariant
                begin.0 == end.0,
                i <= pieces.len(),
                forall|j: int| 0 <= j < i ==> !blocks(#[trigger] pieces@[j], pos(begin), pos(end)),
            decreases pieces.len() - i,
        {
            let piece = &pieces[i];
            if piece.x == begin.0 && ((piece.y > begin.1 && piece.y <= end.1) || (piece.y >= end.1
                && piece.y < begin.1)) {
                return false;
            }
            i = i + 1;
        }
    }
    // Same row
    if begin.1 == end.1 {
        let mut i: usize = 0;
        while i < pieces.len()
            invariant
                begin.1 == end.1,
                i <= pieces.len(),
                begin.0 == end.0 ==> path_clear(pos(begin), pos(end), pieces@),
                forall|j: int| 0 <= j < i ==> !blocks(#[trigger] pieces@[j], pos(begin), pos(end)),
            decreases pieces.len() - i,
        {
            let piece = &pieces[i];
            if piece.y == begin.1 && ((piece.x > begin.0 && piece.x <= end.0) || (piece.x >= end.0
                && piece.x < begin.0)) {
                return false;
            }
            i = i + 1;
        }
    }
    true
}

/// A move is never legal onto an occupied square, along no row or column,
/// or onto the square the piece stands on.
pub proof fn lemma_illegal_moves(piece: Piece, dest: (int, int), pieces: Seq<Piece>)
    ensures
        (exists|i: int| 0 <= i < pieces.len() && #[trigger] pieces[i].at() == dest)
            ==> !piece.may_move(dest, pieces),
        !straight(piece.at(), dest) ==> !piece.may_move(dest, pieces),
        dest == piece.at() ==> !piece.may_move(dest, pieces),
{
    if exists|i: int| 0 <= i < pieces.len() && #[trigger] pieces[i].at() == dest {
        let i = choose|i: int| 0 <= i < pieces.len() && #[trigger] pieces[i].at() == dest;
        if straight(piece.at(), dest) {
            assert(blocks(pieces[i], piece.at(), dest));
        }
    }
}

/// Only the king may stop on a corner or on the throne; any other piece may
/// still slide over the empty throne, as the throne blocks nothing.
pub proof fn lemma_throne_and_corners(piece: Piece, dest: (int, int), pieces: Seq<Piece>)
    ensures
        !piece.is_king && restricted(dest) ==> !piece.may_move(dest, pieces),
        !piece.is_king && !restricted(dest) && straight(piece.at(), dest) && path_clear(
            piece.at(),
            dest,
            pieces,
        ) ==> piece.may_move(dest, pieces),
{
}

} // verus!

verus! {

/// Whether the input stage may run.
#[derive(Clone, Copy, PartialEq, Eq, Debug, Structural)]
pub enum ShouldRun {
    Yes,
    No,
}

/// Set while a piece is still sliding to its new square on screen.
#[derive(Clone, Copy, PartialEq, Eq, Debug, Structural)]
pub struct Moving(pub bool);

/// New input is taken only once no piece is sliding any more.
pub fn is_moving(moving: &Moving) -> (r: ShouldRun)
    ensures
        r == (if moving.0 {
            ShouldRun::No
        } else {
            ShouldRun::Yes
        }),
{
    if moving.0 {
        ShouldRun::No
    } else {
        ShouldRun::Yes
    }
}

} // verus!

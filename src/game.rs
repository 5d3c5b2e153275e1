//! The game: the piece store, whose turn it is, and the move pipeline
//! (validate, move, hand over the turn, capture, decide the winner).
use vstd::prelude::*;

use crate::board::{opponent, LastDestination, PlayerTurn};
use crate::minimap::{all_on_board, grid_of, kills, squares, MiniMap};
use crate::pieces::{blocks, corner, is_corner, on_board, pos, Piece, PieceType, Player};

verus! {

/// What became of a submitted move.
#[derive(Clone, Copy, PartialEq, Eq, Debug, Structural)]
pub enum MoveOutcome {
    Accepted,
    RejectedIllegalMove,
    RejectedWrongTurn,
    RejectedGameOver,
}

/// The opening layout: the king on the throne, twelve defenders around it,
/// and twenty-four attackers in a cross along the edges.
pub open spec fn start_kind(p: (int, int)) -> PieceType {
    let x = p.0;
    let y = p.1;
    if !on_board(p) {
        PieceType::Wall
    } else if x == 5 && y == 5 {
        PieceType::King
    } else if (4 <= x <= 6 && 4 <= y <= 6) || p == (5int, 3int) || p == (5int, 7int) || p == (
    7int, 5int) || p == (3int, 5int) {
        PieceType::Defender
    } else if p == (5int, 9int) || p == (5int, 1int) || p == (9int, 5int) || p == (1int, 5int)
        || ((x == 0 || x == 10) && 3 <= y <= 7) || ((y == 0 || y == 10) && 3 <= x <= 7) {
        PieceType::Attacker
    } else {
        PieceType::Empty
    }
}

/// The live pieces of `slots`, in slot order.
pub open spec fn live(slots: Seq<Option<Piece>>) -> Seq<Piece>
    decreases slots.len(),
{
    if slots.len() == 0 {
        Seq::empty()
    } else if slots.last() is Some {
        live(slots.drop_last()).push(slots.last()->Some_0)
    } else {
        live(slots.drop_last())
    }
}

/// No two live pieces share a square.
pub open spec fn distinct_squares(slots: Seq<Option<Piece>>) -> bool {
    forall|i: int, j: int|
        0 <= i < slots.len() && 0 <= j < slots.len() && i != j && #[trigger] slots[i] is Some
            && #[trigger] slots[j] is Some ==> slots[i]->Some_0.at() != slots[j]->Some_0.at()
}

/// At most one live piece is a king.
pub open spec fn one_king_at_most(slots: Seq<Option<Piece>>) -> bool {
    forall|i: int, j: int|
        0 <= i < slots.len() && 0 <= j < slots.len() && #[trigger] slots[i] is Some
            && #[trigger] slots[j] is Some && slots[i]->Some_0.is_king && slots[j]->Some_0.is_king
            ==> i == j
}

/// The slots after the piece in slot `id` slid to `dest`.
pub open spec fn moved(slots: Seq<Option<Piece>>, id: int, dest: (i8, i8)) -> Seq<Option<Piece>> {
    let p = slots[id]->Some_0;
    slots.update(id, Some(Piece { player: p.player, x: dest.0, y: dest.1, is_king: p.is_king }))
}

/// A slot once the pieces on the squares of `taken` are removed.
pub open spec fn cleared_slot(slot: Option<Piece>, taken: Set<(int, int)>) -> Option<Piece> {
    if slot is Some && taken.contains(slot->Some_0.at()) {
        None
    } else {
        slot
    }
}

/// The slots once the pieces on the squares of `taken` are removed.
pub open spec fn cleared(slots: Seq<Option<Piece>>, taken: Set<(int, int)>) -> Seq<Option<Piece>> {
    Seq::new(slots.len(), |i: int| cleared_slot(slots[i], taken))
}

/// The slots, in increasing order, whose pieces stand on a square of `taken`.
pub open spec fn taken_ids(slots: Seq<Option<Piece>>, taken: Set<(int, int)>) -> Seq<usize>
    decreases slots.len(),
{
    if slots.len() == 0 {
        Seq::empty()
    } else if slots.last() is Some && taken.contains(slots.last()->Some_0.at()) {
        taken_ids(slots.drop_last(), taken).push((slots.len() - 1) as usize)
    } else {
        taken_ids(slots.drop_last(), taken)
    }
}

/// The king stands on a square of `taken`.
pub open spec fn king_taken(slots: Seq<Option<Piece>>, taken: Set<(int, int)>) -> bool {
    exists|i: int|
        0 <= i < slots.len() && #[trigger] slots[i] is Some && slots[i]->Some_0.is_king
            && taken.contains(slots[i]->Some_0.at())
}

/// The live king stands on a corner.
pub open spec fn king_in_corner(slots: Seq<Option<Piece>>) -> bool {
    exists|i: int|
        0 <= i < slots.len() && #[trigger] slots[i] is Some && slots[i]->Some_0.is_king && corner(
            slots[i]->Some_0.at(),
        )
}

/// The winner once a move has been resolved: the attackers when it took
/// the king, the defenders when the king now stands on a corner.
pub open spec fn verdict(after_move: Seq<Option<Piece>>, taken: Set<(int, int)>) -> Option<Player> {
    if king_taken(after_move, taken) {
        Some(Player::Attacker)
    } else if king_in_corner(cleared(after_move, taken)) {
        Some(Player::Defender)
    } else {
        None
    }
}

/// A game in progress. Slot `i` of `pieces` is the piece with id `i`, or
/// `None` once that piece has been taken.
pub struct Game {
    pub pieces: Vec<Option<Piece>>,
    pub turn: PlayerTurn,
    pub game_over: Option<Player>,
    pub last_dest: LastDestination,
    /// The ids of the pieces taken by the last accepted move.
    pub taken: Vec<usize>,
}

fn spawn_pawn(pieces: &mut Vec<Option<Piece>>, player: Player, position: (i8, i8))
    ensures
        final(pieces)@ == old(pieces)@.push(
            Some(Piece { player, x: position.0, y: position.1, is_king: false }),
        ),
{
    pieces.push(Some(Piece { player, x: position.0, y: position.1, is_king: false }));
}

fn spawn_attacker(pieces: &mut Vec<Option<Piece>>, position: (i8, i8))
    ensures
        final(pieces)@ == old(pieces)@.push(
            Some(Piece { player: Player::Attacker, x: position.0, y: position.1, is_king: false }),
        ),
{
    spawn_pawn(pieces, Player::Attacker, position);
}

fn spawn_defender(pieces: &mut Vec<Option<Piece>>, position: (i8, i8))
    ensures
        final(pieces)@ == old(pieces)@.push(
            Some(Piece { player: Player::Defender, x: position.0, y: position.1, is_king: false }),
        ),
{
    spawn_pawn(pieces, Player::Defender, position);
}

fn spawn_king(pieces: &mut Vec<Option<Piece>>, position: (i8, i8))
    ensures
        final(pieces)@ == old(pieces)@.push(
            Some(Piece { player: Player::Defender, x: position.0, y: position.1, is_king: true }),
        ),
{
    pieces.push(Some(Piece { player: Player::Defender, x: position.0, y: position.1, is_king: true }));
}

/// What the opening layout puts on square `p`.
pub fn start_piece(p: (i8, i8)) -> (r: PieceType)
    requires
        on_board(pos(p)),
    ensures
        r == start_kind(pos(p)),
{
    let (x, y) = p;
    if x == 5 && y == 5 {
        PieceType::King
    } else if (4 <= x && x <= 6 && 4 <= y && y <= 6) || (x == 5 && y == 3) || (x == 5 && y == 7)
        || (x == 7 && y == 5) || (x == 3 && y == 5) {
        PieceType::Defender
    } else if (x == 5 && y == 9) || (x == 5 && y == 1) || (x == 9 && y == 5) || (x == 1 && y == 5)
        || ((x == 0 || x == 10) && 3 <= y && y <= 7) || ((y == 0 || y == 10) && 3 <= x && x
        <= 7) {
        PieceType::Attacker
    } else {
        PieceType::Empty
    }
}

/// The pieces of the opening layout, square by square.
fn create_pieces() -> (r: Vec<Option<Piece>>)
    ensures
        all_on_board(r@),
        distinct_squares(r@),
        one_king_at_most(r@),
        forall|i: int|
            0 <= i < r@.len() ==> #[trigger] r@[i] is Some && r@[i]->Some_0.kind() == start_kind(
                r@[i]->Some_0.at(),
            ),
        forall|p: (int, int)|
            on_board(p) && start_kind(p) != PieceType::Empty ==> exists|i: int|
                0 <= i < r@.len() && #[trigger] r@[i] is Some && r@[i]->Some_0.at() == p,
{
    let mut pieces: Vec<Option<Piece>> = Vec::new();
    let mut x: i8 = 0;
    while x < 11
        invariant
            0 <= x <= 11,
            forall|i: int|
                0 <= i < pieces@.len() ==> #[trigger] pieces@[i] is Some && on_board(
                    pieces@[i]->Some_0.at(),
                ) && pieces@[i]->Some_0.x < x && pieces@[i]->Some_0.kind() == start_kind(
                    pieces@[i]->Some_0.at(),
                ),
            forall|i: int, j: int|
                0 <= i < j < pieces@.len() ==> #[trigger] pieces@[i]->Some_0.x * 11
                    + pieces@[i]->Some_0.y < #[trigger] pieces@[j]->Some_0.x * 11
                    + pieces@[j]->Some_0.y,
            forall|p: (int, int)|
                on_board(p) && p.0 < x && start_kind(p) != PieceType::Empty ==> exists|i: int|
                    0 <= i < pieces@.len() && #[trigger] pieces@[i] is Some && pieces@[i]->Some_0.at()
                        == p,
        decreases 11 - x,
    {
        let mut y: i8 = 0;
        while y < 11
            invariant
                0 <= x < 11,
                0 <= y <= 11,
                forall|i: int|
                    0 <= i < pieces@.len() ==> #[trigger] pieces@[i] is Some && on_board(
                        pieces@[i]->Some_0.at(),
                    ) && pieces@[i]->Some_0.x * 11 + pieces@[i]->Some_0.y < x * 11 + y
                        && pieces@[i]->Some_0.kind() == start_kind(pieces@[i]->Some_0.at()),
                forall|i: int, j: int|
                    0 <= i < j < pieces@.len() ==> #[trigger] pieces@[i]->Some_0.x * 11
                        + pieces@[i]->Some_0.y < #[trigger] pieces@[j]->Some_0.x * 11
                        + pieces@[j]->Some_0.y,
                forall|p: (int, int)|
                    on_board(p) && (p.0 < x || (p.0 == x && p.1 < y)) && start_kind(p)
                        != PieceType::Empty ==> exists|i: int|
                        0 <= i < pieces@.len() && #[trigger] pieces@[i] is Some
                            && pieces@[i]->Some_0.at() == p,
            decreases 11 - y,
        {
            let ghost before = pieces@;
            let kind = start_piece((x, y));
            match kind {
                PieceType::King => spawn_king(&mut pieces, (x, y)),
                PieceType::Defender => spawn_defender(&mut pieces, (x, y)),
                PieceType::Attacker => spawn_attacker(&mut pieces, (x, y)),
                _ => {},
            }
            proof {
                assert forall|p: (int, int)|
                    on_board(p) && (p.0 < x || (p.0 == x && p.1 < y + 1)) && start_kind(p)
                        != PieceType::Empty implies exists|i: int|
                    0 <= i < pieces@.len() && #[trigger] pieces@[i] is Some && pieces@[i]->Some_0.at()
                        == p by {
                    if p.0 < x || (p.0 == x && p.1 < y) {
                        let i = choose|i: int|
                            0 <= i < before.len() && #[trigger] before[i] is Some
                                && before[i]->Some_0.at() == p;
                        assert(pieces@[i] == before[i]);
                    } else {
                        assert(pieces@[before.len() as int] is Some);
                    }
                }
            }
            y = y + 1;
        }
        x = x + 1;
    }
    proof {
        assert forall|i: int, j: int|
            0 <= i < pieces@.len() && 0 <= j < pieces@.len() && i != j && #[trigger] pieces@[i] is Some
                && #[trigger] pieces@[j] is Some implies pieces@[i]->Some_0.at()
            != pieces@[j]->Some_0.at() by {
            if i < j {
                assert(pieces@[i]->Some_0.x * 11 + pieces@[i]->Some_0.y < pieces@[j]->Some_0.x * 11
                    + pieces@[j]->Some_0.y);
            } else {
                assert(pieces@[j]->Some_0.x * 11 + pieces@[j]->Some_0.y < pieces@[i]->Some_0.x * 11
                    + pieces@[i]->Some_0.y);
            }
        }
        assert forall|i: int, j: int|
            0 <= i < pieces@.len() && 0 <= j < pieces@.len() && #[trigger] pieces@[i] is Some
                && #[trigger] pieces@[j] is Some && pieces@[i]->Some_0.is_king
                && pieces@[j]->Some_0.is_king implies i == j by {
            assert(pieces@[i]->Some_0.kind() == PieceType::King);
            assert(pieces@[j]->Some_0.kind() == PieceType::King);
        }
    }
    pieces
}


/// Each live piece of `slots` is among `live(slots)`.
proof fn lemma_live(slots: Seq<Option<Piece>>)
    ensures
        forall|i: int|
            0 <= i < slots.len() && #[trigger] slots[i] is Some ==> live(slots).contains(
                slots[i]->Some_0,
            ),
    decreases slots.len(),
{
    if slots.len() > 0 {
        let rest = slots.drop_last();
        lemma_live(rest);
        assert forall|i: int|
            0 <= i < slots.len() && #[trigger] slots[i] is Some implies live(slots).contains(
            slots[i]->Some_0,
        ) by {
            if i < slots.len() - 1 {
                assert(rest[i] == slots[i]);
                let j = choose|j: int| 0 <= j < live(rest).len() && live(rest)[j] == slots[i]->Some_0;
                if slots.last() is Some {
                    assert(live(slots)[j] == slots[i]->Some_0);
                }
            } else {
                assert(live(slots)[live(rest).len() as int] == slots[i]->Some_0);
            }
        }
    }
}

/// Whether the square `(x, y)` is listed in `v`.
fn contains_square(v: &Vec<(i8, i8)>, x: i8, y: i8) -> (r: bool)
    ensures
        r == squares(v@).contains((x as int, y as int)),
{
    let mut i: usize = 0;
    while i < v.len()
        invariant
            i <= v.len(),
            forall|j: int| 0 <= j < i ==> pos(#[trigger] v@[j]) != (x as int, y as int),
        decreases v.len() - i,
    {
        if v[i].0 == x && v[i].1 == y {
            assert(pos(v@[i as int]) == (x as int, y as int));
            return true;
        }
        i = i + 1;
    }
    false
}

impl Game {
    /// Every live piece is on the board, on a square of its own, and there
    /// is at most one king.
    pub open spec fn wf(self) -> bool {
        &&& all_on_board(self.pieces@)
        &&& distinct_squares(self.pieces@)
        &&& one_king_at_most(self.pieces@)
    }

    /// Slot `id` holds a live piece.
    pub open spec fn holds(self, id: int) -> bool {
        0 <= id < self.pieces@.len() && self.pieces@[id] is Some
    }

    /// The live piece in slot `id` may slide to `dest`.
    pub open spec fn legal(self, id: int, dest: (i8, i8)) -> bool {
        on_board(pos(dest)) && self.pieces@[id]->Some_0.may_move(pos(dest), live(self.pieces@))
    }

    /// The squares taken when the piece in slot `id` slides to `dest`.
    pub open spec fn move_kills(self, id: int, dest: (i8, i8)) -> Set<(int, int)> {
        kills(grid_of(moved(self.pieces@, id, dest)), pos(dest))
    }

    /// The opening position, attackers to move.
    pub fn new() -> (r: Game)
        ensures
            r.wf(),
            r.turn.0 == Player::Attacker,
            r.game_over is None,
            r.taken@.len() == 0,
            forall|i: int|
                0 <= i < r.pieces@.len() ==> #[trigger] r.pieces@[i] is Some
                    && r.pieces@[i]->Some_0.kind() == start_kind(r.pieces@[i]->Some_0.at()),
            forall|p: (int, int)|
                on_board(p) && start_kind(p) != PieceType::Empty ==> exists|i: int|
                    0 <= i < r.pieces@.len() && #[trigger] r.pieces@[i] is Some
                        && r.pieces@[i]->Some_0.at() == p,
    {
        Game {
            pieces: create_pieces(),
            turn: PlayerTurn::default(),
            game_over: None,
            last_dest: LastDestination::default(),
            taken: Vec::new(),
        }
    }

    /// The live pieces, in id order.
    pub fn live_pieces(&self) -> (r: Vec<Piece>)
        ensures
            r@ == live(self.pieces@),
    {
        let mut r: Vec<Piece> = Vec::new();
        let mut i: usize = 0;
        while i < self.pieces.len()
            invariant
                i <= self.pieces@.len(),
                r@ == live(self.pieces@.take(i as int)),
            decreases self.pieces.len() - i,
        {
            proof {
                assert(self.pieces@.take(i + 1).drop_last() =~= self.pieces@.take(i as int));
            }
            if let Some(piece) = self.pieces[i] {
                r.push(piece);
            }
            i = i + 1;
        }
        assert(self.pieces@.take(self.pieces.len() as int) =~= self.pieces@);
        r
    }

    /// How many pieces are still in play.
    pub fn live_count(&self) -> (r: usize)
        ensures
            r == live(self.pieces@).len(),
    {
        self.live_pieces().len()
    }

    pub fn current_turn(&self) -> (r: Player)
        ensures
            r == self.turn.0,
    {
        self.turn.0
    }

    pub fn is_game_over(&self) -> (r: Option<Player>)
        ensures
            r == self.game_over,
    {
        self.game_over
    }

    /// The grid the live pieces project.
    pub fn minimap(&self) -> (r: MiniMap)
        requires
            self.wf(),
        ensures
            r@ == grid_of(self.pieces@),
    {
        MiniMap::from_query(&self.pieces)
    }

    /// The id of the piece of the side to move that stands on `square`.
    pub fn select_piece(&self, square: (i8, i8)) -> (r: Option<usize>)
        ensures
            r matches Some(i) ==> self.holds(i as int) && self.pieces@[i as int]->Some_0.at() == pos(
                square,
            ) && self.pieces@[i as int]->Some_0.player == self.turn.0,
            r is None ==> forall|i: int|
                #![trigger self.pieces@[i]]
                self.holds(i) ==> self.pieces@[i]->Some_0.at() != pos(square)
                    || self.pieces@[i]->Some_0.player != self.turn.0,
    {
        let mut i: usize = 0;
        while i < self.pieces.len()
            invariant
                i <= self.pieces@.len(),
                forall|j: int|
                    #![trigger self.pieces@[j]]
                    0 <= j < i && self.holds(j) ==> self.pieces@[j]->Some_0.at() != pos(square)
                        || self.pieces@[j]->Some_0.player != self.turn.0,
            decreases self.pieces.len() - i,
        {
            if let Some(piece) = self.pieces[i] {
                if piece.x == square.0 && piece.y == square.1 && self.turn.0 == piece.player {
                    return Some(i);
                }
            }
            i = i + 1;
        }
        None
    }

    /// The side to move passes: the turn goes to the other side. Refused,
    /// with nothing changed, when `player` is not the side to move.
    pub fn skip_turn(&mut self, player: Player) -> (r: bool)
        ensures
            r == (player == old(self).turn.0),
            r ==> final(self).turn.0 == opponent(old(self).turn.0),
            !r ==> final(self).turn == old(self).turn,
            final(self).pieces == old(self).pieces,
            final(self).game_over == old(self).game_over,
            final(self).last_dest == old(self).last_dest,
            final(self).taken == old(self).taken,
    {
        if self.turn.0 == player {
            self.turn.change();
            true
        } else {
            false
        }
    }
}


impl Game {
    /// Plays the piece with id `piece_id` to `destination` for the side to
    /// move. An accepted move slides the piece, hands the turn over, removes
    /// the pieces it captures and decides whether the game is won. A rejected
    /// move changes nothing, and once the game is won every move is rejected.
    pub fn submit_move(&mut self, piece_id: usize, destination: (i8, i8)) -> (r: MoveOutcome)
        requires
            old(self).wf(),
        ensures
            final(self).wf(),
            r == (if old(self).game_over is Some {
                MoveOutcome::RejectedGameOver
            } else if !old(self).holds(piece_id as int) {
                MoveOutcome::RejectedIllegalMove
            } else if old(self).pieces@[piece_id as int]->Some_0.player != old(self).turn.0 {
                MoveOutcome::RejectedWrongTurn
            } else if !old(self).legal(piece_id as int, destination) {
                MoveOutcome::RejectedIllegalMove
            } else {
                MoveOutcome::Accepted
            }),
            r != MoveOutcome::Accepted ==> *final(self) == *old(self),
            r == MoveOutcome::Accepted ==> final(self).pieces@ == cleared(
                moved(old(self).pieces@, piece_id as int, destination),
                old(self).move_kills(piece_id as int, destination),
            ),
            r == MoveOutcome::Accepted ==> final(self).taken@ == taken_ids(
                moved(old(self).pieces@, piece_id as int, destination),
                old(self).move_kills(piece_id as int, destination),
            ),
            r == MoveOutcome::Accepted ==> final(self).game_over == verdict(
                moved(old(self).pieces@, piece_id as int, destination),
                old(self).move_kills(piece_id as int, destination),
            ),
            r == MoveOutcome::Accepted ==> final(self).turn.0 == opponent(old(self).turn.0),
            r == MoveOutcome::Accepted ==> final(self).last_dest.x == destination.0
                && final(self).last_dest.y == destination.1,
    {
        if self.game_over.is_some() {
            return MoveOutcome::RejectedGameOver;
        }
        if piece_id >= self.pieces.len() || self.pieces[piece_id].is_none() {
            return MoveOutcome::RejectedIllegalMove;
        }
        let piece = self.pieces[piece_id].unwrap();
        if piece.player != self.turn.0 {
            return MoveOutcome::RejectedWrongTurn;
        }
        if destination.0 < 0 || destination.0 > 10 || destination.1 < 0 || destination.1 > 10 {
            return MoveOutcome::RejectedIllegalMove;
        }
        let pieces_vec = self.live_pieces();
        if !piece.is_move_valid(destination, pieces_vec) {
            return MoveOutcome::RejectedIllegalMove;
        }
        let ghost before = self.pieces@;
        let ghost after = moved(before, piece_id as int, destination);
        proof {
            lemma_live(before);
            assert forall|i: int, j: int|
                0 <= i < after.len() && 0 <= j < after.len() && i != j && #[trigger] after[i] is Some
                    && #[trigger] after[j] is Some implies after[i]->Some_0.at()
                != after[j]->Some_0.at() by {
                if i == piece_id as int {
                    assert(!blocks(before[j]->Some_0, piece.at(), pos(destination)));
                } else if j == piece_id as int {
                    assert(!blocks(before[i]->Some_0, piece.at(), pos(destination)));
                }
            }
            assert forall|i: int, j: int|
                0 <= i < after.len() && 0 <= j < after.len() && #[trigger] after[i] is Some
                    && #[trigger] after[j] is Some && after[i]->Some_0.is_king
                    && after[j]->Some_0.is_king implies i == j by {
                assert(before[i] is Some && before[j] is Some);
            }
        }
        self.move_piece(piece_id, destination);
        let killings = self.check_killing();
        self.despawn_taken_pieces(&killings);
        self.check_victory();
        proof {
            let k = squares(killings@);
            let c = cleared(after, k);
            assert forall|i: int| 0 <= i < c.len() && #[trigger] c[i] is Some implies on_board(
                c[i]->Some_0.at(),
            ) by {
                assert(after[i] is Some);
            }
            assert forall|i: int, j: int|
                0 <= i < c.len() && 0 <= j < c.len() && i != j && #[trigger] c[i] is Some
                    && #[trigger] c[j] is Some implies c[i]->Some_0.at() != c[j]->Some_0.at() by {
                assert(after[i] is Some && after[j] is Some);
            }
            assert forall|i: int, j: int|
                0 <= i < c.len() && 0 <= j < c.len() && #[trigger] c[i] is Some && #[trigger] c[j] is Some
                    && c[i]->Some_0.is_king && c[j]->Some_0.is_king implies i == j by {
                assert(after[i] is Some && after[j] is Some);
            }
        }
        MoveOutcome::Accepted
    }

    /// Slides the piece in slot `id` to `dest`, records the square and
    /// hands the turn over.
    fn move_piece(&mut self, id: usize, dest: (i8, i8))
        requires
            old(self).holds(id as int),
        ensures
            final(self).pieces@ == moved(old(self).pieces@, id as int, dest),
            final(self).turn.0 == opponent(old(self).turn.0),
            final(self).last_dest.x == dest.0 && final(self).last_dest.y == dest.1,
            final(self).game_over == old(self).game_over,
            final(self).taken == old(self).taken,
    {
        let piece = self.pieces[id].unwrap();
        self.pieces.set(id, Some(Piece { player: piece.player, x: dest.0, y: dest.1, is_king: piece.is_king }));
        self.last_dest = LastDestination { x: dest.0, y: dest.1 };
        self.turn.change();
    }

    /// The squares taken by the move that ended on the last destination.
    fn check_killing(&self) -> (r: Vec<(i8, i8)>)
        requires
            all_on_board(self.pieces@),
            on_board((self.last_dest.x as int, self.last_dest.y as int)),
        ensures
            squares(r@) == kills(grid_of(self.pieces@), (self.last_dest.x as int, self.last_dest.y as int)),
    {
        let map = MiniMap::from_query(&self.pieces);
        map.detect_killings((self.last_dest.x, self.last_dest.y))
    }

    /// Removes the pieces that stand on a square of `killings` and lists
    /// their ids; taking the king wins the game for the attackers.
    fn despawn_taken_pieces(&mut self, killings: &Vec<(i8, i8)>)
        ensures
            final(self).pieces@ == cleared(old(self).pieces@, squares(killings@)),
            final(self).taken@ == taken_ids(old(self).pieces@, squares(killings@)),
            final(self).game_over == (if king_taken(old(self).pieces@, squares(killings@)) {
                Some(Player::Attacker)
            } else {
                old(self).game_over
            }),
            final(self).turn == old(self).turn,
            final(self).last_dest == old(self).last_dest,
    {
        let ghost k = squares(killings@);
        let ghost start = self.pieces@;
        self.taken = Vec::new();
        let mut king_gone = false;
        let mut i: usize = 0;
        while i < self.pieces.len()
            invariant
                self.pieces@.len() == start.len(),
                i <= start.len(),
                forall|j: int| 0 <= j < i ==> #[trigger] self.pieces@[j] == cleared_slot(start[j], k),
                forall|j: int| i <= j < start.len() ==> #[trigger] self.pieces@[j] == start[j],
                self.taken@ == taken_ids(start.take(i as int), k),
                king_gone == exists|j: int|
                    0 <= j < i && #[trigger] start[j] is Some && start[j]->Some_0.is_king && k.contains(
                        start[j]->Some_0.at(),
                    ),
                self.turn == old(self).turn,
                self.last_dest == old(self).last_dest,
                self.game_over == old(self).game_over,
                k == squares(killings@),
            decreases start.len() - i,
        {
            proof {
                assert(start.take(i + 1).drop_last() =~= start.take(i as int));
            }
            if let Some(piece) = self.pieces[i] {
                if contains_square(killings, piece.x, piece.y) {
                    if piece.is_king {
                        king_gone = true;
                    }
                    self.pieces.set(i, None);
                    self.taken.push(i);
                }
            }
            i = i + 1;
        }
        if king_gone {
            self.game_over = Some(Player::Attacker);
        }
        proof {
            assert(start.take(start.len() as int) =~= start);
            assert(self.pieces@ =~= cleared(start, k));
        }
    }

    /// The defenders win once the king stands on a corner.
    fn check_victory(&mut self)
        ensures
            final(self).game_over == (if old(self).game_over is None && king_in_corner(old(self).pieces@) {
                Some(Player::Defender)
            } else {
                old(self).game_over
            }),
            final(self).pieces == old(self).pieces,
            final(self).taken == old(self).taken,
            final(self).turn == old(self).turn,
            final(self).last_dest == old(self).last_dest,
    {
        if self.game_over.is_some() {
            return;
        }
        let mut i: usize = 0;
        while i < self.pieces.len()
            invariant
                i <= self.pieces@.len(),
                self.game_over is None,
                old(self).game_over is None,
                self.pieces == old(self).pieces,
                self.taken == old(self).taken,
                self.turn == old(self).turn,
                self.last_dest == old(self).last_dest,
                forall|j: int|
                    0 <= j < i ==> !(#[trigger] self.pieces@[j] is Some && self.pieces@[j]->Some_0.is_king
                        && corner(self.pieces@[j]->Some_0.at())),
            decreases self.pieces.len() - i,
        {
            if let Some(piece) = self.pieces[i] {
                if piece.is_king && is_corner((piece.x, piece.y)) {
                    assert(old(self).pieces@[i as int] is Some && old(self).pieces@[i as int]->Some_0 == piece);
                    assert(corner(piece.at()));
                    assert(king_in_corner(old(self).pieces@));
                    self.game_over = Some(Player::Defender);
                    return;
                }
            }
            i = i + 1;
        }
    }
}

} // verus!

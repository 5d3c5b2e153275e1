//! The grid of square kinds, rebuilt from the live pieces, and capture
//! detection on it.
use vstd::prelude::*;

use crate::pieces::{on_board, pos, Piece, PieceType};

verus! {

/// The squares of the board by column `x` and row `y`, as seen by the rules.
pub type Grid = Seq<Seq<PieceType>>;

/// What a lookup at `p` answers: the stored kind on the board, `Wall` off it.
pub open spec fn square(g: Grid, p: (int, int)) -> PieceType {
    if on_board(p) {
        g[p.0][p.1]
    } else {
        PieceType::Wall
    }
}

/// The neighbour of `p` in direction `d`: 0 is y - 1, 1 is y + 1, 2 is
/// x - 1 and 3 is x + 1.
pub open spec fn step(p: (int, int), d: int) -> (int, int) {
    if d == 0 {
        (p.0, p.1 - 1)
    } else if d == 1 {
        (p.0, p.1 + 1)
    } else if d == 2 {
        (p.0 - 1, p.1)
    } else {
        (p.0 + 1, p.1)
    }
}

/// The direction opposite to `d`.
pub open spec fn back(d: int) -> int {
    if d == 0 {
        1
    } else if d == 1 {
        0
    } else if d == 2 {
        3
    } else {
        2
    }
}

/// The grid of the empty board: only the throne is marked.
pub open spec fn empty_grid() -> Grid {
    Seq::new(
        11,
        |x: int|
            Seq::new(
                11,
                |y: int|
                    if x == 5 && y == 5 {
                        PieceType::Castle
                    } else {
                        PieceType::Empty
                    },
            ),
    )
}

/// What stands on `p` once the live pieces of `slots` are placed in order
/// on the empty board (a later piece covers an earlier one).
pub open spec fn occupant(slots: Seq<Option<Piece>>, p: (int, int)) -> PieceType
    decreases slots.len(),
{
    if slots.len() == 0 {
        square(empty_grid(), p)
    } else if slots.last() is Some && slots.last()->Some_0.at() == p {
        slots.last()->Some_0.kind()
    } else {
        occupant(slots.drop_last(), p)
    }
}

/// The grid that the live pieces of `slots` project.
pub open spec fn grid_of(slots: Seq<Option<Piece>>) -> Grid {
    Seq::new(11, |x: int| Seq::new(11, |y: int| occupant(slots, (x, y))))
}

/// Every live piece of `slots` stands on the board.
pub open spec fn all_on_board(slots: Seq<Option<Piece>>) -> bool {
    forall|i: int| 0 <= i < slots.len() && #[trigger] slots[i] is Some ==> on_board(slots[i]->Some_0.at())
}

/// The set of squares listed in `v`.
pub open spec fn squares(v: Seq<(i8, i8)>) -> Set<(int, int)> {
    Set::new(|p: (int, int)| exists|i: int| 0 <= i < v.len() && p == pos(#[trigger] v[i]))
}


/// `q` continues a hostile chain against `mover`: it holds a piece that is
/// hostile to the mover. Empty squares, the edge and the throne do not.
pub open spec fn links(g: Grid, mover: PieceType, q: (int, int)) -> bool {
    square(g, q).is_piece() && square(g, q).hostile_to(mover)
}

/// `p` is reached from `s` in at most `k` steps through linking squares.
pub open spec fn reaches(g: Grid, mover: PieceType, s: (int, int), p: (int, int), k: nat) -> bool
    decreases k,
{
    if k == 0 {
        p == s
    } else {
        let j = (k - 1) as nat;
        ||| reaches(g, mover, s, p, j)
        ||| links(g, mover, p) && {
            ||| reaches(g, mover, s, step(p, 0), j)
            ||| reaches(g, mover, s, step(p, 1), j)
            ||| reaches(g, mover, s, step(p, 2), j)
            ||| reaches(g, mover, s, step(p, 3), j)
        }
    }
}

/// One step of `reaches`, with the direction as a witness.
proof fn lemma_reaches_unfold(g: Grid, mover: PieceType, s: (int, int), p: (int, int), k: nat)
    requires
        k > 0,
    ensures
        reaches(g, mover, s, p, k) <==> (reaches(g, mover, s, p, (k - 1) as nat) || (links(g, mover, p)
            && exists|d: int| 0 <= d < 4 && #[trigger] reaches(g, mover, s, step(p, d), (k - 1) as nat))),
{
    let j = (k - 1) as nat;
    if links(g, mover, p) && exists|d: int| 0 <= d < 4 && #[trigger] reaches(g, mover, s, step(p, d), j) {
        let d = choose|d: int| 0 <= d < 4 && #[trigger] reaches(g, mover, s, step(p, d), j);
        assert(d == 0 || d == 1 || d == 2 || d == 3);
    }
    if reaches(g, mover, s, p, k) && !reaches(g, mover, s, p, j) {
        if reaches(g, mover, s, step(p, 0), j) {
            assert(reaches(g, mover, s, step(p, 0), j));
        } else if reaches(g, mover, s, step(p, 1), j) {
            assert(reaches(g, mover, s, step(p, 1), j));
        } else if reaches(g, mover, s, step(p, 2), j) {
            assert(reaches(g, mover, s, step(p, 2), j));
        } else {
            assert(reaches(g, mover, s, step(p, 3), j));
        }
    }
}

/// The group that grows from `s`: `s` and every linking square connected to it.
pub open spec fn group(g: Grid, mover: PieceType, s: (int, int)) -> Set<(int, int)> {
    Set::new(|p: (int, int)| exists|k: nat| #[trigger] reaches(g, mover, s, p, k))
}

/// No square of `set` has an empty neighbour.
pub open spec fn sealed(g: Grid, set: Set<(int, int)>) -> bool {
    forall|p: (int, int), d: int|
        set.contains(p) && 0 <= d < 4 ==> square(g, #[trigger] step(p, d)) != PieceType::Empty
}

/// The neighbour of `last` in direction `d` is hostile to the piece on
/// `last`, and the group it starts is sealed.
pub open spec fn opens(g: Grid, last: (int, int), d: int) -> bool {
    let mover = square(g, last);
    &&& square(g, step(last, d)).hostile_to(mover)
    &&& sealed(g, group(g, mover, step(last, d)))
}

/// What the sealed groups next to `last`, in the directions before `n`, hold.
pub open spec fn enclosed_upto(g: Grid, last: (int, int), n: int) -> Set<(int, int)> {
    Set::new(
        |p: (int, int)|
            exists|d: int|
                0 <= d < n && #[trigger] opens(g, last, d) && group(g, square(g, last), step(last, d)).contains(p),
    )
}

/// The enclosure captures of a piece that arrived on `last`.
pub open spec fn enclosed_kills(g: Grid, last: (int, int)) -> Set<(int, int)> {
    enclosed_upto(g, last, 4)
}

/// The non-king piece next to `last` in direction `d` stands between the
/// piece on `last` and a square beyond it, both hostile to it.
pub open spec fn flanked(g: Grid, last: (int, int), d: int) -> bool {
    let n = step(last, d);
    let c = square(g, n);
    &&& (c == PieceType::Attacker || c == PieceType::Defender)
    &&& square(g, step(n, d)).hostile_to(c)
    &&& square(g, last).hostile_to(c)
}

pub open spec fn flank_upto(g: Grid, last: (int, int), n: int) -> Set<(int, int)> {
    Set::new(
        |p: (int, int)| exists|d: int| 0 <= d < n && #[trigger] flanked(g, last, d) && p == step(last, d),
    )
}

/// The two-sided captures of a piece that arrived on `last`.
pub open spec fn flank_kills(g: Grid, last: (int, int)) -> Set<(int, int)> {
    flank_upto(g, last, 4)
}

/// The squares captured when a piece arrives on `last`: the enclosure
/// captures, or, where there are none, the two-sided ones.
pub open spec fn kills(g: Grid, last: (int, int)) -> Set<(int, int)> {
    if enclosed_kills(g, last) == Set::<(int, int)>::empty() {
        flank_kills(g, last)
    } else {
        enclosed_kills(g, last)
    }
}

/// Index of a board square in a flat table of 121 entries.
pub open spec fn idx(p: (int, int)) -> int {
    p.0 * 11 + p.1
}

/// How many entries of `marks` are still unset.
pub open spec fn unmarked(marks: Seq<bool>) -> nat
    decreases marks.len(),
{
    if marks.len() == 0 {
        0
    } else {
        unmarked(marks.drop_last()) + if marks.last() {
            0nat
        } else {
            1nat
        }
    }
}

proof fn lemma_unmarked_set(marks: Seq<bool>, i: int)
    requires
        0 <= i < marks.len(),
        !marks[i],
    ensures
        unmarked(marks.update(i, true)) + 1 == unmarked(marks),
    decreases marks.len(),
{
    let m2 = marks.update(i, true);
    if i == marks.len() - 1 {
        assert(m2.drop_last() =~= marks.drop_last());
    } else {
        assert(m2.drop_last() =~= marks.drop_last().update(i, true));
        lemma_unmarked_set(marks.drop_last(), i);
    }
}

proof fn lemma_step_back(p: (int, int), d: int)
    requires
        0 <= d < 4,
    ensures
        step(step(p, d), back(d)) == p,
        0 <= back(d) < 4,
{
}

/// A square reached from `s` one more step through a linking neighbour.
proof fn lemma_reaches_next(g: Grid, mover: PieceType, s: (int, int), p: (int, int), d: int, k: nat)
    requires
        0 <= d < 4,
        reaches(g, mover, s, p, k),
        links(g, mover, step(p, d)),
    ensures
        reaches(g, mover, s, step(p, d), k + 1),
{
    lemma_step_back(p, d);
    let q = step(p, d);
    assert(reaches(g, mover, s, step(q, back(d)), k));
    lemma_reaches_unfold(g, mover, s, q, k + 1);
}

/// A set that holds `s` and each linking neighbour of its members holds
/// the whole group of `s`.
proof fn lemma_closed_holds_group(g: Grid, mover: PieceType, s: (int, int), marks: Seq<bool>, k: nat)
    requires
        marks.len() == 121,
        on_board(s),
        marks[idx(s)],
        forall|p: (int, int), d: int|
            on_board(p) && marks[idx(p)] && 0 <= d < 4 && links(g, mover, #[trigger] step(p, d))
                ==> marks[idx(step(p, d))],
    ensures
        forall|p: (int, int)| #[trigger] reaches(g, mover, s, p, k) ==> on_board(p) && marks[idx(p)],
    decreases k,
{
    if k > 0 {
        lemma_closed_holds_group(g, mover, s, marks, (k - 1) as nat);
        assert forall|p: (int, int)| #[trigger] reaches(g, mover, s, p, k) implies on_board(p) && marks[idx(p)] by {
            if !reaches(g, mover, s, p, (k - 1) as nat) {
                lemma_reaches_unfold(g, mover, s, p, k);
                let d = choose|d: int| 0 <= d < 4 && #[trigger] reaches(g, mover, s, step(p, d), (k - 1) as nat);
                let q = step(p, d);
                lemma_step_back(p, d);
                assert(links(g, mover, step(q, back(d))));
            }
        }
    }
}

/// Every neighbour of `p` is occupied, and each linking one is marked.
pub open spec fn expanded(g: Grid, mover: PieceType, marks: Seq<bool>, p: (int, int)) -> bool {
    forall|d: int|
        0 <= d < 4 ==> square(g, #[trigger] step(p, d)) != PieceType::Empty && (links(g, mover, step(p, d))
            ==> marks[idx(step(p, d))])
}

proof fn lemma_idx(p: (int, int), q: (int, int))
    requires
        on_board(p),
        on_board(q),
    ensures
        0 <= idx(p) < 121,
        idx(p) == idx(q) <==> p == q,
{
}

/// A lookup that does not answer `Wall` is on the board.
proof fn lemma_held_on_board(g: Grid, p: (int, int))
    requires
        square(g, p) != PieceType::Wall,
    ensures
        on_board(p),
{
}

proof fn lemma_squares_append(a: Seq<(i8, i8)>, b: Seq<(i8, i8)>)
    ensures
        squares(a + b) == squares(a).union(squares(b)),
{
    assert forall|p: (int, int)| squares(a + b).contains(p) implies squares(a).union(squares(b)).contains(p) by {
        let i = choose|i: int| 0 <= i < (a + b).len() && p == pos(#[trigger] (a + b)[i]);
        if i < a.len() {
            assert(a[i] == (a + b)[i]);
        } else {
            assert(b[i - a.len()] == (a + b)[i]);
        }
    }
    assert forall|p: (int, int)| squares(a).union(squares(b)).contains(p) implies squares(a + b).contains(p) by {
        if squares(a).contains(p) {
            let i = choose|i: int| 0 <= i < a.len() && p == pos(#[trigger] a[i]);
            assert((a + b)[i] == a[i]);
        } else {
            let i = choose|i: int| 0 <= i < b.len() && p == pos(#[trigger] b[i]);
            assert((a + b)[i + a.len()] == b[i]);
        }
    }
    assert(squares(a + b) =~= squares(a).union(squares(b)));
}

proof fn lemma_squares_push(a: Seq<(i8, i8)>, q: (i8, i8))
    ensures
        squares(a.push(q)) == squares(a).insert(pos(q)),
{
    assert(a.push(q) =~= a + seq![q]);
    lemma_squares_append(a, seq![q]);
    assert(squares(seq![q]) =~= Set::empty().insert(pos(q))) by {
        assert(pos(seq![q][0]) == pos(q));
    }
    assert(squares(a).union(Set::empty().insert(pos(q))) =~= squares(a).insert(pos(q)));
}

proof fn lemma_squares_empty(a: Seq<(i8, i8)>)
    ensures
        (squares(a) == Set::<(int, int)>::empty()) <==> a.len() == 0,
{
    if a.len() == 0 {
        assert(squares(a) =~= Set::<(int, int)>::empty());
    } else {
        assert(squares(a).contains(pos(a[0])));
    }
}

/// An 11x11 grid of square kinds, indexed by column then row.
pub struct MiniMap(pub [[PieceType; 11]; 11]);

impl View for MiniMap {
    type V = Grid;

    open spec fn view(&self) -> Grid {
        Seq::new(11, |x: int| Seq::new(11, |y: int| self.0[x][y]))
    }
}

impl Default for MiniMap {
    fn default() -> (r: MiniMap)
        ensures
            r@ == empty_grid(),
    {
        let mut retval: MiniMap = MiniMap([[PieceType::Empty; 11]; 11]);
        let mut column = retval.0[5];
        column[5] = PieceType::Castle;
        retval.0[5] = column;
        assert(retval@ =~~= empty_grid());
        retval
    }
}

impl MiniMap {
    pub fn set_piece(&mut self, piece: &Piece)
        requires
            on_board(piece.at()),
        ensures
            final(self)@ == old(self)@.update(
                piece.x as int,
                old(self)@[piece.x as int].update(piece.y as int, piece.kind()),
            ),
    {
        let mut column = self.0[piece.x as usize];
        column[piece.y as usize] = piece.to_piecetype();
        self.0[piece.x as usize] = column;
        assert(self@ =~~= old(self)@.update(
            piece.x as int,
            old(self)@[piece.x as int].update(piece.y as int, piece.kind()),
        ));
    }

    pub fn get_piece(&self, loc: (i8, i8)) -> (r: PieceType)
        ensures
            r == square(self@, pos(loc)),
    {
        if loc.0 < 0 || loc.0 > 10 || loc.1 < 0 || loc.1 > 10 {
            PieceType::Wall
        } else {
            self.0[loc.0 as usize][loc.1 as usize]
        }
    }

    fn get_neighbours(&self, loc: (i8, i8)) -> (r: [(i8, i8); 4])
        requires
            -100 <= loc.0 <= 100,
            -100 <= loc.1 <= 100,
        ensures
            forall|d: int| 0 <= d < 4 ==> pos(#[trigger] r[d]) == step(pos(loc), d),
    {
        let (x, y) = loc;
        [(x, y - 1), (x, y + 1), (x - 1, y), (x + 1, y)]
    }

    /// The grid of the live pieces among `pieces`; empty slots are pieces
    /// that were taken.
    pub fn from_query(pieces: &Vec<Option<Piece>>) -> (r: MiniMap)
        requires
            all_on_board(pieces@),
        ensures
            r@ == grid_of(pieces@),
    {
        let mut map: MiniMap = MiniMap::default();
        let mut i: usize = 0;
        while i < pieces.len()
            invariant
                i <= pieces.len(),
                all_on_board(pieces@),
                forall|x: int, y: int|
                    0 <= x <= 10 && 0 <= y <= 10 ==> #[trigger] map@[x][y] == occupant(
                        pieces@.take(i as int),
                        (x, y),
                    ),
            decreases pieces.len() - i,
        {
            proof {
                assert(pieces@.take(i + 1).drop_last() =~= pieces@.take(i as int));
            }
            if let Some(piece) = &pieces[i] {
                map.set_piece(piece);
            }
            i = i + 1;
        }
        assert(pieces@.take(pieces.len() as int) =~= pieces@);
        assert(map@ =~~= grid_of(pieces@));
        map
    }

    /// Grows the group of `start` against `mover`: `None` as soon as a
    /// member of the group has an empty neighbour, else the whole group.
    fn detect_group(&self, mover: PieceType, start: (i8, i8)) -> (r: Option<Vec<(i8, i8)>>)
        requires
            square(self@, pos(start)).hostile_to(mover),
        ensures
            r is Some <==> sealed(self@, group(self@, mover, pos(start))),
            r is Some ==> squares(r->Some_0@) == group(self@, mover, pos(start)),
    {
        let ghost g = self@;
        let ghost s = pos(start);
        let mut marks: Vec<bool> = Vec::new();
        let mut i: usize = 0;
        while i < 121
            invariant
                i <= 121,
                marks@.len() == i,
                forall|j: int| 0 <= j < i ==> !marks@[j],
            decreases 121 - i,
        {
            marks.push(false);
            i = i + 1;
        }
        proof {
            lemma_held_on_board(g, s);
            lemma_idx(s, s);
            assert(reaches(g, mover, s, s, 0));
        }
        let si: usize = (start.0 as usize) * 11 + (start.1 as usize);
        marks.set(si, true);
        let mut found: Vec<(i8, i8)> = Vec::new();
        found.push(start);
        let mut todo: Vec<(i8, i8)> = Vec::new();
        todo.push(start);
        proof {
            assert forall|p: (int, int)| on_board(p) && #[trigger] marks@[idx(p)] implies squares(
                found@,
            ).contains(p) by {
                lemma_idx(p, s);
                assert(idx(s) == si);
                assert(pos(found@[0]) == p);
            }
            assert forall|p: (int, int)|
                on_board(p) && #[trigger] marks@[idx(p)] && !squares(todo@).contains(p) implies expanded(
                g,
                mover,
                marks@,
                p,
            ) by {
                lemma_idx(p, s);
                assert(idx(s) == si);
                assert(pos(todo@[0]) == p);
            }
        }
        while todo.len() > 0
            invariant
                g == self@,
                s == pos(start),
                on_board(s),
                marks@.len() == 121,
                marks@[idx(s)],
                forall|i: int|
                    0 <= i < found@.len() ==> on_board(pos(#[trigger] found@[i])) && marks@[idx(
                        pos(found@[i]),
                    )] && group(g, mover, s).contains(pos(found@[i])),
                forall|p: (int, int)|
                    on_board(p) && #[trigger] marks@[idx(p)] ==> squares(found@).contains(p),
                forall|i: int|
                    0 <= i < todo@.len() ==> on_board(pos(#[trigger] todo@[i])) && marks@[idx(
                        pos(todo@[i]),
                    )] && group(g, mover, s).contains(pos(todo@[i])),
                todo@.no_duplicates(),
                forall|p: (int, int)|
                    on_board(p) && #[trigger] marks@[idx(p)] && !squares(todo@).contains(p)
                        ==> expanded(g, mover, marks@, p),
            decreases 5 * unmarked(marks@) + todo@.len(),
        {
            let ghost t0 = todo@;
            let p = todo.pop().unwrap();
            let ghost pp = pos(p);
            let ghost bound = 5 * unmarked(marks@) + todo@.len();
            proof {
                assert(t0 == todo@.push(p));
                assert(!squares(todo@).contains(pp)) by {
                    if squares(todo@).contains(pp) {
                        let i = choose|i: int| 0 <= i < todo@.len() && pp == pos(#[trigger] todo@[i]);
                        assert(t0[i] == t0[t0.len() - 1]);
                    }
                }
                assert(on_board(pp) && marks@[idx(pp)] && group(g, mover, s).contains(pp)) by {
                    assert(t0[t0.len() - 1] == p);
                }
                assert forall|q: (int, int)|
                    on_board(q) && #[trigger] marks@[idx(q)] && !squares(todo@).contains(q) && q != pp
                        implies expanded(g, mover, marks@, q) by {
                    if squares(t0).contains(q) {
                        let i = choose|i: int| 0 <= i < t0.len() && q == pos(#[trigger] t0[i]);
                        if i < todo@.len() {
                            assert(pos(todo@[i]) == q);
                        }
                    }
                }
            }
            let nb = self.get_neighbours(p);
            let mut d: usize = 0;
            while d < 4
                invariant
                    g == self@,
                    s == pos(start),
                    on_board(s),
                    pp == pos(p),
                    on_board(pp),
                    group(g, mover, s).contains(pp),
                    !squares(todo@).contains(pp),
                    forall|e: int| 0 <= e < 4 ==> pos(#[trigger] nb[e]) == step(pp, e),
                    d <= 4,
                    marks@.len() == 121,
                    marks@[idx(s)],
                    marks@[idx(pp)],
                    forall|i: int|
                        0 <= i < found@.len() ==> on_board(pos(#[trigger] found@[i])) && marks@[idx(
                            pos(found@[i]),
                        )] && group(g, mover, s).contains(pos(found@[i])),
                    forall|q: (int, int)|
                        on_board(q) && #[trigger] marks@[idx(q)] ==> squares(found@).contains(q),
                    forall|i: int|
                        0 <= i < todo@.len() ==> on_board(pos(#[trigger] todo@[i])) && marks@[idx(
                            pos(todo@[i]),
                        )] && group(g, mover, s).contains(pos(todo@[i])),
                    todo@.no_duplicates(),
                    forall|q: (int, int)|
                        on_board(q) && #[trigger] marks@[idx(q)] && !squares(todo@).contains(q) && q
                            != pp ==> expanded(g, mover, marks@, q),
                    forall|e: int|
                        0 <= e < d ==> square(g, #[trigger] step(pp, e)) != PieceType::Empty && (links(
                            g,
                            mover,
                            step(pp, e),
                        ) ==> marks@[idx(step(pp, e))]),
                    5 * unmarked(marks@) + todo@.len() <= bound,
                decreases 4 - d,
            {
                let q = nb[d];
                let c = self.get_piece(q);
                if c == PieceType::Empty {
                    proof {
                        assert(group(g, mover, s).contains(pp) && 0 <= d < 4 && square(g, step(pp, d as int)) == PieceType::Empty);
                    }
                    return None;
                }
                if (c == PieceType::Attacker || c == PieceType::Defender || c == PieceType::King)
                    && c.is_enemy(mover) {
                    let ghost qq = pos(q);
                    proof {
                        lemma_held_on_board(g, qq);
                        lemma_idx(qq, qq);
                    }
                    let qi: usize = (q.0 as usize) * 11 + (q.1 as usize);
                    if !marks[qi] {
                        proof {
                            lemma_unmarked_set(marks@, qi as int);
                            let k = choose|k: nat| #[trigger] reaches(g, mover, s, pp, k);
                            lemma_reaches_next(g, mover, s, pp, d as int, k);
                            assert(group(g, mover, s).contains(qq));
                        }
                        let ghost m0 = marks@;
                        let ghost f0 = found@;
                        let ghost t1 = todo@;
                        marks.set(qi, true);
                        found.push(q);
                        todo.push(q);
                        proof {
                            assert(!squares(t1).contains(qq)) by {
                                if squares(t1).contains(qq) {
                                    let i = choose|i: int| 0 <= i < t1.len() && qq == pos(#[trigger] t1[i]);
                                    lemma_idx(qq, pos(t1[i]));
                                }
                            }
                            assert forall|x: (int, int)|
                                on_board(x) && #[trigger] marks@[idx(x)] implies squares(found@).contains(x) by {
                                lemma_idx(x, qq);
                                if x == qq {
                                    assert(pos(found@[f0.len() as int]) == x);
                                } else {
                                    assert(m0[idx(x)]);
                                    let i = choose|i: int| 0 <= i < f0.len() && x == pos(#[trigger] f0[i]);
                                    assert(pos(found@[i]) == x);
                                }
                            }
                            assert forall|i: int| 0 <= i < found@.len() implies on_board(pos(#[trigger] found@[i])) && marks@[idx(
                                pos(found@[i]),
                            )] && group(g, mover, s).contains(pos(found@[i])) by {
                                if i < f0.len() {
                                    assert(found@[i] == f0[i]);
                                    lemma_idx(pos(f0[i]), qq);
                                }
                            }
                            assert forall|i: int| 0 <= i < todo@.len() implies on_board(pos(#[trigger] todo@[i])) && marks@[idx(
                                pos(todo@[i]),
                            )] && group(g, mover, s).contains(pos(todo@[i])) by {
                                if i < t1.len() {
                                    assert(todo@[i] == t1[i]);
                                    lemma_idx(pos(t1[i]), qq);
                                }
                            }
                            assert forall|i: int, j: int| 0 <= i < todo@.len() && 0 <= j < todo@.len() && i != j implies todo@[i] != todo@[j] by {
                                if i < t1.len() && j < t1.len() {
                                    assert(t1[i] != t1[j]);
                                } else if i < t1.len() {
                                    assert(pos(t1[i]) != qq);
                                } else if j < t1.len() {
                                    assert(pos(t1[j]) != qq);
                                }
                            }
                            assert forall|x: (int, int)|
                                on_board(x) && #[trigger] marks@[idx(x)] && !squares(todo@).contains(x) && x
                                    != pp implies expanded(g, mover, marks@, x) by {
                                lemma_idx(x, qq);
                                if x == qq {
                                    assert(pos(todo@[t1.len() as int]) == x);
                                } else {
                                    assert(!squares(t1).contains(x)) by {
                                        if squares(t1).contains(x) {
                                            let i = choose|i: int| 0 <= i < t1.len() && x == pos(#[trigger] t1[i]);
                                            assert(pos(todo@[i]) == x);
                                        }
                                    }
                                    assert(expanded(g, mover, m0, x));
                                    assert forall|e: int| 0 <= e < 4 implies square(g, #[trigger] step(x, e)) != PieceType::Empty && (links(g, mover, step(x, e))
                                        ==> marks@[idx(step(x, e))]) by {
                                        if links(g, mover, step(x, e)) {
                                            lemma_idx(step(x, e), qq);
                                        }
                                    }
                                }
                            }
                            assert forall|e: int| 0 <= e <= d implies square(g, #[trigger] step(pp, e)) != PieceType::Empty && (links(
                                g,
                                mover,
                                step(pp, e),
                            ) ==> marks@[idx(step(pp, e))]) by {
                                if links(g, mover, step(pp, e)) {
                                    lemma_idx(step(pp, e), qq);
                                }
                            }
                        }
                    }
                }
                d = d + 1;
            }
            proof {
                assert(expanded(g, mover, marks@, pp));
            }
        }
        proof {
            assert forall|p: (int, int), e: int|
                on_board(p) && marks@[idx(p)] && 0 <= e < 4 && links(g, mover, #[trigger] step(p, e))
                    implies marks@[idx(step(p, e))] by {
                assert(expanded(g, mover, marks@, p));
            }
            assert forall|p: (int, int)| group(g, mover, s).contains(p) implies on_board(p) && marks@[idx(p)] by {
                let k = choose|k: nat| #[trigger] reaches(g, mover, s, p, k);
                lemma_idx(s, s);
                lemma_closed_holds_group(g, mover, s, marks@, k);
            }
            assert(squares(found@) =~= group(g, mover, s)) by {
                assert forall|p: (int, int)| squares(found@).contains(p) implies group(g, mover, s).contains(p) by {
                    let i = choose|i: int| 0 <= i < found@.len() && p == pos(#[trigger] found@[i]);
                }
                assert forall|p: (int, int)| group(g, mover, s).contains(p) implies squares(found@).contains(p) by {
                    assert(on_board(p) && marks@[idx(p)]);
                }
            }
            assert forall|p: (int, int), e: int|
                group(g, mover, s).contains(p) && 0 <= e < 4 implies square(g, #[trigger] step(p, e)) != PieceType::Empty by {
                assert(expanded(g, mover, marks@, p));
            }
        }
        Some(found)
    }

    /// The squares captured when a piece has just arrived on `last_dest`.
    pub fn detect_killings(&self, last_dest: (i8, i8)) -> (r: Vec<(i8, i8)>)
        requires
            on_board(pos(last_dest)),
        ensures
            squares(r@) == kills(self@, pos(last_dest)),
    {
        let retval = self.detect_multikill(&last_dest);
        proof {
            lemma_squares_empty(retval@);
        }
        if retval.len() == 0 {
            // Check all the easy kills
            self.detect_simple_kill(last_dest)
        } else {
            retval
        }
    }

    /// Enclosure captures: each hostile neighbour of `last_dest` starts a
    /// group, taken whole when no member of it has an empty neighbour.
    fn detect_multikill(&self, last_dest: &(i8, i8)) -> (r: Vec<(i8, i8)>)
        requires
            on_board(pos(*last_dest)),
        ensures
            squares(r@) == enclosed_kills(self@, pos(*last_dest)),
    {
        let ghost g = self@;
        let ghost l = pos(*last_dest);
        let mut retval: Vec<(i8, i8)> = Vec::new();
        let just_moved_piece = self.get_piece(*last_dest);
        let nb = self.get_neighbours(*last_dest);
        proof {
            assert(squares(retval@) =~= enclosed_upto(g, l, 0));
        }
        let mut d: usize = 0;
        while d < 4
            invariant
                g == self@,
                l == pos(*last_dest),
                on_board(l),
                just_moved_piece == square(g, l),
                forall|e: int| 0 <= e < 4 ==> pos(#[trigger] nb[e]) == step(l, e),
                d <= 4,
                squares(retval@) == enclosed_upto(g, l, d as int),
            decreases 4 - d,
        {
            let neighbour_loc = nb[d];
            let neighbour = self.get_piece(neighbour_loc);
            let ghost before = retval@;
            let ghost gr = group(g, just_moved_piece, step(l, d as int));
            if !neighbour.is_friendly(just_moved_piece) {
                match self.detect_group(just_moved_piece, neighbour_loc) {
                    Some(mut done_group) => {
                        let ghost added = done_group@;
                        retval.append(&mut done_group);
                        proof {
                            lemma_squares_append(before, added);
                        }
                    },
                    None => {},
                }
            }
            proof {
                let now = squares(retval@);
                assert forall|p: (int, int)| enclosed_upto(g, l, d + 1).contains(p) implies now.contains(p) by {
                    let e = choose|e: int|
                        0 <= e < d + 1 && #[trigger] opens(g, l, e) && group(g, square(g, l), step(l, e)).contains(p);
                    if e < d {
                        assert(enclosed_upto(g, l, d as int).contains(p));
                    }
                }
                assert forall|p: (int, int)| now.contains(p) implies enclosed_upto(g, l, d + 1).contains(p) by {
                    if squares(before).contains(p) {
                        let e = choose|e: int|
                            0 <= e < d && #[trigger] opens(g, l, e) && group(g, square(g, l), step(l, e)).contains(p);
                    } else {
                        assert(opens(g, l, d as int) && gr.contains(p));
                    }
                }
                assert(now =~= enclosed_upto(g, l, d + 1));
            }
            d = d + 1;
        }
        retval
    }

    /// Two-sided captures: a non-king piece next to `last_dest` that now
    /// stands between two squares hostile to it along that line.
    fn detect_simple_kill(&self, last_dest: (i8, i8)) -> (r: Vec<(i8, i8)>)
        requires
            on_board(pos(last_dest)),
        ensures
            squares(r@) == flank_kills(self@, pos(last_dest)),
    {
        let ghost g = self@;
        let ghost l = pos(last_dest);
        let mut retval: Vec<(i8, i8)> = Vec::new();
        let nb = self.get_neighbours(last_dest);
        proof {
            assert(squares(retval@) =~= flank_upto(g, l, 0));
        }
        let mut d: usize = 0;
        while d < 4
            invariant
                g == self@,
                l == pos(last_dest),
                on_board(l),
                forall|e: int| 0 <= e < 4 ==> pos(#[trigger] nb[e]) == step(l, e),
                d <= 4,
                squares(retval@) == flank_upto(g, l, d as int),
            decreases 4 - d,
        {
            let neighbours = nb[d];
            let loc = self.get_piece(neighbours);
            let ghost before = retval@;
            let hit = if loc == PieceType::Attacker || loc == PieceType::Defender {
                let around = self.get_neighbours(neighbours);
                let (up_loc, down_loc, left_loc, right_loc) = (around[0], around[1], around[2], around[3]);
                if (up_loc.0 == last_dest.0 && up_loc.1 == last_dest.1) || (down_loc.0 == last_dest.0
                    && down_loc.1 == last_dest.1) {
                    let up = self.get_piece(up_loc);
                    let down = self.get_piece(down_loc);
                    up.is_enemy(loc) && down.is_enemy(loc)
                } else if (left_loc.0 == last_dest.0 && left_loc.1 == last_dest.1) || (right_loc.0
                    == last_dest.0 && right_loc.1 == last_dest.1) {
                    let left = self.get_piece(left_loc);
                    let right = self.get_piece(right_loc);
                    left.is_enemy(loc) && right.is_enemy(loc)
                } else {
                    false
                }
            } else {
                false
            };
            proof {
                assert(hit == flanked(g, l, d as int));
            }
            if hit {
                retval.push(neighbours);
                proof {
                    lemma_squares_push(before, neighbours);
                }
            }
            proof {
                let now = squares(retval@);
                assert forall|p: (int, int)| flank_upto(g, l, d + 1).contains(p) implies now.contains(p) by {
                    let e = choose|e: int| 0 <= e < d + 1 && #[trigger] flanked(g, l, e) && p == step(l, e);
                    if e < d {
                        assert(flank_upto(g, l, d as int).contains(p));
                    }
                }
                assert forall|p: (int, int)| now.contains(p) implies flank_upto(g, l, d + 1).contains(p) by {
                    if squares(before).contains(p) {
                        let e = choose|e: int| 0 <= e < d && #[trigger] flanked(g, l, e) && p == step(l, e);
                    } else {
                        assert(flanked(g, l, d as int) && p == step(l, d as int));
                    }
                }
                assert(now =~= flank_upto(g, l, d + 1));
            }
            d = d + 1;
        }
        retval
    }
}

} // verus!

verus! {

/// Every square of a group is its start or a linking square.
proof fn lemma_group_member(g: Grid, mover: PieceType, s: (int, int), p: (int, int), k: nat)
    requires
        reaches(g, mover, s, p, k),
    ensures
        p == s || links(g, mover, p),
    decreases k,
{
    if k > 0 {
        lemma_reaches_unfold(g, mover, s, p, k);
        if reaches(g, mover, s, p, (k - 1) as nat) {
            lemma_group_member(g, mover, s, p, (k - 1) as nat);
        }
    }
}

/// The group of a member `t` of the group of `u` lies within it.
proof fn lemma_group_within(g: Grid, mover: PieceType, u: (int, int), t: (int, int), x: (int, int), k: nat)
    requires
        group(g, mover, u).contains(t),
        reaches(g, mover, t, x, k),
    ensures
        group(g, mover, u).contains(x),
    decreases k,
{
    if k > 0 {
        lemma_reaches_unfold(g, mover, t, x, k);
        if !reaches(g, mover, t, x, (k - 1) as nat) {
            let d = choose|d: int| 0 <= d < 4 && #[trigger] reaches(g, mover, t, step(x, d), (k - 1) as nat);
            let q = step(x, d);
            lemma_group_within(g, mover, u, t, q, (k - 1) as nat);
            let j = choose|j: nat| #[trigger] reaches(g, mover, u, q, j);
            lemma_step_back(x, d);
            lemma_reaches_next(g, mover, u, q, back(d), j);
        } else {
            lemma_group_within(g, mover, u, t, x, (k - 1) as nat);
        }
    }
}

/// Within a hostile chain, being connected goes both ways.
proof fn lemma_group_back(g: Grid, mover: PieceType, s: (int, int), p: (int, int), k: nat)
    requires
        links(g, mover, s),
        reaches(g, mover, s, p, k),
    ensures
        group(g, mover, p).contains(s),
    decreases k,
{
    if k == 0 {
        assert(reaches(g, mover, p, s, 0));
    } else {
        lemma_reaches_unfold(g, mover, s, p, k);
        if reaches(g, mover, s, p, (k - 1) as nat) {
            lemma_group_back(g, mover, s, p, (k - 1) as nat);
        } else {
            let d = choose|d: int| 0 <= d < 4 && #[trigger] reaches(g, mover, s, step(p, d), (k - 1) as nat);
            let q = step(p, d);
            lemma_group_back(g, mover, s, q, (k - 1) as nat);
            lemma_group_member(g, mover, s, q, (k - 1) as nat);
            assert(reaches(g, mover, p, p, 0));
            lemma_reaches_next(g, mover, p, p, d, 0);
            let j = choose|j: nat| #[trigger] reaches(g, mover, q, s, j);
            lemma_group_within(g, mover, p, q, s, j);
        }
    }
}

/// Two runs of capture detection on the same grid and the same arrival
/// square report the same set of squares.
pub proof fn lemma_detection_repeatable(g: Grid, last: (int, int), first: Seq<(i8, i8)>, second: Seq<(i8, i8)>)
    requires
        squares(first) == kills(g, last),
        squares(second) == kills(g, last),
    ensures
        squares(first) == squares(second),
{
}

/// The piece that just moved is never taken by its own move, even when it
/// lands between two enemies.
pub proof fn lemma_mover_not_taken(g: Grid, last: (int, int))
    requires
        square(g, last).is_piece(),
    ensures
        !kills(g, last).contains(last),
{
    let mover = square(g, last);
    if enclosed_kills(g, last).contains(last) {
        let d = choose|d: int|
            0 <= d < 4 && #[trigger] opens(g, last, d) && group(g, mover, step(last, d)).contains(last);
        let k = choose|k: nat| #[trigger] reaches(g, mover, step(last, d), last, k);
        lemma_group_member(g, mover, step(last, d), last, k);
    }
}

/// A cluster of enemy pieces next to the arrival square with no empty
/// square around it is taken whole by the move.
pub proof fn lemma_sealed_cluster_taken(g: Grid, last: (int, int), d: int)
    requires
        square(g, last).is_piece(),
        0 <= d < 4,
        links(g, square(g, last), step(last, d)),
        sealed(g, group(g, square(g, last), step(last, d))),
    ensures
        group(g, square(g, last), step(last, d)).subset_of(kills(g, last)),
{
    let gr = group(g, square(g, last), step(last, d));
    assert(opens(g, last, d));
    assert(reaches(g, square(g, last), step(last, d), step(last, d), 0));
    assert(enclosed_kills(g, last).contains(step(last, d)));
    assert forall|p: (int, int)| gr.contains(p) implies kills(g, last).contains(p) by {
        assert(enclosed_kills(g, last).contains(p));
    }
}

/// A cluster of enemy pieces next to the arrival square with an empty
/// square around it is not taken by enclosure: the only members the move
/// can take are neighbours of the arrival square caught two-sided.
pub proof fn lemma_open_cluster_spared(g: Grid, last: (int, int), d: int)
    requires
        square(g, last).is_piece(),
        0 <= d < 4,
        links(g, square(g, last), step(last, d)),
        !sealed(g, group(g, square(g, last), step(last, d))),
    ensures
        group(g, square(g, last), step(last, d)).disjoint(enclosed_kills(g, last)),
        forall|p: (int, int)|
            group(g, square(g, last), step(last, d)).contains(p) && #[trigger] kills(g, last).contains(p)
                ==> flank_kills(g, last).contains(p),
{
    let mover = square(g, last);
    let s = step(last, d);
    let gr = group(g, mover, s);
    assert forall|p: (int, int)| gr.contains(p) implies !enclosed_kills(g, last).contains(p) by {
        if enclosed_kills(g, last).contains(p) {
            let e = choose|e: int|
                0 <= e < 4 && #[trigger] opens(g, last, e) && group(g, mover, step(last, e)).contains(p);
            let k = choose|k: nat| #[trigger] reaches(g, mover, s, p, k);
            lemma_group_back(g, mover, s, p, k);
            let j = choose|j: nat| #[trigger] reaches(g, mover, p, s, j);
            lemma_group_within(g, mover, step(last, e), p, s, j);
            assert forall|x: (int, int)| gr.contains(x) implies group(g, mover, step(last, e)).contains(x) by {
                let i = choose|i: nat| #[trigger] reaches(g, mover, s, x, i);
                lemma_group_within(g, mover, step(last, e), s, x, i);
            }
            assert(sealed(g, gr));
        }
    }
    assert(gr.disjoint(enclosed_kills(g, last)));
}

/// The king is never taken two-sided: when a move takes it, it was taken by
/// enclosure and none of its four neighbours is empty.
pub proof fn lemma_king_only_enclosed(g: Grid, last: (int, int), king: (int, int))
    requires
        square(g, king) == PieceType::King,
        kills(g, last).contains(king),
    ensures
        enclosed_kills(g, last).contains(king),
        forall|d: int| 0 <= d < 4 ==> square(g, #[trigger] step(king, d)) != PieceType::Empty,
{
    if !enclosed_kills(g, last).contains(king) {
        assert(enclosed_kills(g, last) =~= Set::<(int, int)>::empty()) by {
            if enclosed_kills(g, last) != Set::<(int, int)>::empty() {
                assert(kills(g, last) == enclosed_kills(g, last));
            }
        }
        let e = choose|e: int| 0 <= e < 4 && #[trigger] flanked(g, last, e) && king == step(last, e);
    }
    let e = choose|e: int|
        0 <= e < 4 && #[trigger] opens(g, last, e) && group(g, square(g, last), step(last, e)).contains(king);
    assert(sealed(g, group(g, square(g, last), step(last, e))));
}

} // verus!

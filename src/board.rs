use vstd::prelude::*;
use vstd::string::*;

use crate::error::ChessError;

verus! {

#[derive(Clone, Copy, Debug, PartialEq, Eq, Structural, Hash)]
pub enum Color {
    Black,
    White,
}

#[derive(Clone, Copy, Debug, PartialEq, Eq, Structural, Hash)]
pub enum Figure {
    Pawn,
    Rook,
    Knight,
    Bishop,
    Queen,
    King,
}

/// A square, written as its file letter and rank digit.
#[derive(Clone, Copy, Debug, Eq, Hash)]
pub struct Square {
    pub pos: (char, char),
}

/// A piece standing on a square.
#[derive(Clone, Copy, Debug, Eq, Hash)]
pub struct Piece {
    pub color: Color,
    pub figure: Figure,
    pub square: Square,
}

/// The 64 squares (indexed by rank, then file) and the pieces placed on them.
#[derive(Clone, Debug)]
pub struct Board {
    pub squares: [[Square; 8]; 8],
    pub pieces: Vec<Piece>,
    pub is_valid: bool,
}

impl PartialEq for Square {
    fn eq(&self, other: &Square) -> (r: bool) {
        self.pos.0 == other.pos.0 && self.pos.1 == other.pos.1
    }
}

impl vstd::std_specs::cmp::PartialEqSpecImpl for Square {
    open spec fn obeys_eq_spec() -> bool {
        true
    }

    open spec fn eq_spec(&self, other: &Square) -> bool {
        self.pos == other.pos
    }
}

impl PartialEq for Piece {
    fn eq(&self, other: &Piece) -> (r: bool) {
        self.color == other.color && self.figure == other.figure && self.square == other.square
    }
}

impl vstd::std_specs::cmp::PartialEqSpecImpl for Piece {
    open spec fn obeys_eq_spec() -> bool {
        true
    }

    open spec fn eq_spec(&self, other: &Piece) -> bool {
        *self == *other
    }
}

/// The other side.
pub open spec fn opponent(c: Color) -> Color {
    match c {
        Color::White => Color::Black,
        Color::Black => Color::White,
    }
}

/// File index of a square: 0 for 'a' up to 7 for 'h'.
pub open spec fn file_idx(s: Square) -> int {
    s.pos.0 as int - 'a' as int
}

/// Rank index of a square: 0 for '1' up to 7 for '8'.
pub open spec fn rank_idx(s: Square) -> int {
    s.pos.1 as int - '1' as int
}

pub open spec fn on_board(f: int, r: int) -> bool {
    0 <= f < 8 && 0 <= r < 8
}

/// The square `s` has file index `f` and rank index `r`.
pub open spec fn at(s: Square, f: int, r: int) -> bool {
    file_idx(s) == f && rank_idx(s) == r
}

impl Square {
    /// Only squares a1 to h8 exist on the board.
    pub open spec fn wf(self) -> bool {
        on_board(file_idx(self), rank_idx(self))
    }
}

/// Every piece stands on a real square, and no two share one.
pub open spec fn pieces_wf(ps: Seq<Piece>) -> bool {
    &&& forall|i: int| 0 <= i < ps.len() ==> (#[trigger] ps[i]).square.wf()
    &&& forall|i: int, j: int|
        0 <= i < ps.len() && 0 <= j < ps.len() && i != j ==> (#[trigger] ps[i]).square.pos
            != (#[trigger] ps[j]).square.pos
}

/// Row `r` of the grid holds the squares of rank `r`, in file order.
pub open spec fn grid_wf(g: [[Square; 8]; 8]) -> bool {
    forall|r: int, f: int| on_board(f, r) ==> at(#[trigger] g[r][f], f, r)
}

/// Some piece stands on the square with indices `(f, r)`.
pub open spec fn occupied(ps: Seq<Piece>, f: int, r: int) -> bool {
    exists|i: int| 0 <= i < ps.len() && at((#[trigger] ps[i]).square, f, r)
}

/// The piece on the square with indices `(f, r)`, if any.
pub open spec fn occupant(ps: Seq<Piece>, f: int, r: int) -> Option<Piece> {
    if occupied(ps, f, r) {
        Some(ps[choose|i: int| 0 <= i < ps.len() && at((#[trigger] ps[i]).square, f, r)])
    } else {
        None
    }
}

/// `ps` with the pieces on `(f, r)` left out, the others in their order.
pub open spec fn without(ps: Seq<Piece>, f: int, r: int) -> Seq<Piece>
    decreases ps.len(),
{
    if ps.len() == 0 {
        ps
    } else {
        let rest = without(ps.drop_last(), f, r);
        if at(ps.last().square, f, r) {
            rest
        } else {
            rest.push(ps.last())
        }
    }
}

/// The square `(f, r)` holds a piece of color `c`.
pub open spec fn holds_color(ps: Seq<Piece>, c: Color, f: int, r: int) -> bool {
    occupant(ps, f, r) matches Some(q) && q.color == c
}

/// A file letter, case-insensitive, as a file index; -1 for anything else.
pub open spec fn file_of_char(c: char) -> int {
    if 'a' <= c <= 'h' {
        c as int - 'a' as int
    } else if 'A' <= c <= 'H' {
        c as int - 'A' as int
    } else {
        -1
    }
}

/// A rank digit as a rank index; -1 for anything else.
pub open spec fn rank_of_char(c: char) -> int {
    if '1' <= c <= '8' {
        c as int - '1' as int
    } else {
        -1
    }
}

/// Square notation: exactly a file letter followed by a rank digit.
pub open spec fn is_square_text(s: Seq<char>) -> bool {
    s.len() == 2 && file_of_char(s[0]) >= 0 && rank_of_char(s[1]) >= 0
}

/// The piece at position `i` of a well-formed placement is the occupant of
/// its own square.
pub proof fn lemma_occupant_index(ps: Seq<Piece>, i: int)
    requires
        pieces_wf(ps),
        0 <= i < ps.len(),
    ensures
        occupied(ps, file_idx(ps[i].square), rank_idx(ps[i].square)),
        occupant(ps, file_idx(ps[i].square), rank_idx(ps[i].square)) == Some(ps[i]),
{
    let f = file_idx(ps[i].square);
    let r = rank_idx(ps[i].square);
    assert(at(ps[i].square, f, r));
    let j = choose|j: int| 0 <= j < ps.len() && at((#[trigger] ps[j]).square, f, r);
    if j != i {
        assert(ps[i].square.pos != ps[j].square.pos);
    }
}

impl Square {
    /// The square with file index `f` and rank index `r`.
    pub fn from_coords(f: i8, r: i8) -> (s: Square)
        requires
            on_board(f as int, r as int),
        ensures
            s.wf(),
            at(s, f as int, r as int),
    {
        let fc = (97u8 + f as u8) as char;
        let rc = (49u8 + r as u8) as char;
        Square { pos: (fc, rc) }
    }

    /// File index, 0 to 7.
    pub fn file(&self) -> (f: i8)
        requires
            self.wf(),
        ensures
            f as int == file_idx(*self),
    {
        (self.pos.0 as u32 - 97) as i8
    }

    /// Rank index, 0 to 7.
    pub fn rank(&self) -> (r: i8)
        requires
            self.wf(),
        ensures
            r as int == rank_idx(*self),
    {
        (self.pos.1 as u32 - 49) as i8
    }

    /// Reads square notation such as "e4" (the file letter in either case).
    pub fn from_str(s: &str) -> (r: Result<Square, ChessError>)
        ensures
            match r {
                Ok(sq) => is_square_text(s@) && sq.wf() && at(
                    sq,
                    file_of_char(s@[0]),
                    rank_of_char(s@[1]),
                ),
                Err(e) => !is_square_text(s@) && e == ChessError::InvalidNotation,
            },
    {
        if s.unicode_len() != 2 {
            return Err(ChessError::InvalidNotation);
        }
        let fc = s.get_char(0);
        let rc = s.get_char(1);
        let f: i8 = if 'a' <= fc && fc <= 'h' {
            (fc as u32 - 97) as i8
        } else if 'A' <= fc && fc <= 'H' {
            (fc as u32 - 65) as i8
        } else {
            return Err(ChessError::InvalidNotation);
        };
        if !('1' <= rc && rc <= '8') {
            return Err(ChessError::InvalidNotation);
        }
        let r = (rc as u32 - 49) as i8;
        Ok(Square::from_coords(f, r))
    }

    /// The square `delta` files and ranks away, if it is on the board.
    pub fn move_by(&self, delta: (i8, i8)) -> (r: Option<Square>)
        requires
            self.wf(),
        ensures
            r is Some <==> on_board(file_idx(*self) + delta.0, rank_idx(*self) + delta.1),
            r matches Some(s) ==> s.wf() && at(
                s,
                file_idx(*self) + delta.0,
                rank_idx(*self) + delta.1,
            ),
    {
        let f = self.file() as i16 + delta.0 as i16;
        let r = self.rank() as i16 + delta.1 as i16;
        if 0 <= f && f < 8 && 0 <= r && r < 8 {
            Some(Square::from_coords(f as i8, r as i8))
        } else {
            None
        }
    }
}

impl Board {
    /// The 64 squares are laid out in order and the pieces obey `pieces_wf`.
    pub open spec fn wf(&self) -> bool {
        grid_wf(self.squares) && pieces_wf(self.pieces@)
    }

    /// The piece on `(f, r)`, if any.
    pub open spec fn occupant_at(&self, f: int, r: int) -> Option<Piece> {
        occupant(self.pieces@, f, r)
    }
}

/// After a piece is appended on an empty square, that square holds it and no
/// other square changes.
pub proof fn lemma_occupant_push(ps: Seq<Piece>, p: Piece, f: int, r: int)
    requires
        pieces_wf(ps),
        pieces_wf(ps.push(p)),
    ensures
        occupant(ps.push(p), f, r) == if at(p.square, f, r) {
            Some(p)
        } else {
            occupant(ps, f, r)
        },
{
    let qs = ps.push(p);
    if at(p.square, f, r) {
        lemma_occupant_index(qs, ps.len() as int);
    } else if occupied(ps, f, r) {
        let i = choose|i: int| 0 <= i < ps.len() && at((#[trigger] ps[i]).square, f, r);
        lemma_occupant_index(ps, i);
        assert(qs[i] == ps[i]);
        lemma_occupant_index(qs, i);
    } else {
        assert forall|i: int| 0 <= i < qs.len() implies !at((#[trigger] qs[i]).square, f, r) by {
            if i < ps.len() {
                assert(qs[i] == ps[i]);
            }
        }
    }
}

/// A row of the grid: the squares of rank `r`, in file order.
fn rank_row(r: i8) -> (row: [Square; 8])
    requires
        0 <= r < 8,
    ensures
        forall|f: int| 0 <= f < 8 ==> at(#[trigger] row[f], f, r as int),
{
    let row = [
        Square::from_coords(0, r),
        Square::from_coords(1, r),
        Square::from_coords(2, r),
        Square::from_coords(3, r),
        Square::from_coords(4, r),
        Square::from_coords(5, r),
        Square::from_coords(6, r),
        Square::from_coords(7, r),
    ];
    assert forall|f: int| 0 <= f < 8 implies at(#[trigger] row[f], f, r as int) by {
        assert(row@ == seq![row[0], row[1], row[2], row[3], row[4], row[5], row[6], row[7]]);
    }
    row
}

impl Board {
    /// An empty board: all 64 squares addressable, no pieces.
    pub fn new() -> (b: Board)
        ensures
            b.wf(),
            b.pieces@.len() == 0,
            b.is_valid,
    {
        let squares = [
            rank_row(0),
            rank_row(1),
            rank_row(2),
            rank_row(3),
            rank_row(4),
            rank_row(5),
            rank_row(6),
            rank_row(7),
        ];
        assert forall|r: int, f: int| on_board(f, r) implies at(#[trigger] squares[r][f], f, r) by {
            assert(squares@ == seq![
                squares[0],
                squares[1],
                squares[2],
                squares[3],
                squares[4],
                squares[5],
                squares[6],
                squares[7],
            ]);
        }
        Board { squares, pieces: Vec::new(), is_valid: true }
    }

    /// The square named by `s` ("a1" to "h8", file letter in either case).
    pub fn get(&self, s: &str) -> (r: Option<&Square>)
        requires
            grid_wf(self.squares),
        ensures
            r is Some <==> is_square_text(s@),
            r matches Some(sq) ==> sq.wf() && at(*sq, file_of_char(s@[0]), rank_of_char(s@[1])),
    {
        match Square::from_str(s) {
            Ok(sq) => self.get_from_coord(sq.file() as u8, sq.rank() as u8),
            Err(_) => None,
        }
    }

    /// The square named by `s`, which must be valid notation.
    pub fn get_unchecked(&self, s: &str) -> (r: &Square)
        requires
            grid_wf(self.squares),
            is_square_text(s@),
        ensures
            r.wf(),
            at(*r, file_of_char(s@[0]), rank_of_char(s@[1])),
    {
        self.get(s).unwrap()
    }

    /// The board's own copy of `square`.
    pub fn get_from_square(&self, square: &Square) -> (r: Option<&Square>)
        requires
            grid_wf(self.squares),
        ensures
            r is Some <==> square.wf(),
            r matches Some(sq) ==> *sq == *square,
    {
        if 'a' <= square.pos.0 && square.pos.0 <= 'h' && '1' <= square.pos.1 && square.pos.1 <= '8' {
            let r = self.get_from_coord(square.file() as u8, square.rank() as u8);
            proof {
                let sq = *r.unwrap();
                assert(sq.pos.0 as int == square.pos.0 as int);
                assert(sq.pos.1 as int == square.pos.1 as int);
            }
            r
        } else {
            None
        }
    }

    /// The board's own copy of `square`, which must lie on the board.
    pub fn get_from_square_unchecked(&self, square: &Square) -> (r: &Square)
        requires
            grid_wf(self.squares),
            square.wf(),
        ensures
            *r == *square,
    {
        self.get_from_square(square).unwrap()
    }

    /// The square with file index `file` and rank index `rank`.
    pub fn get_from_coord(&self, file: u8, rank: u8) -> (r: Option<&Square>)
        requires
            grid_wf(self.squares),
        ensures
            r is Some <==> file < 8 && rank < 8,
            r matches Some(sq) ==> sq.wf() && at(*sq, file as int, rank as int),
    {
        if file < 8 && rank < 8 {
            Some(&self.squares[rank as usize][file as usize])
        } else {
            None
        }
    }

    /// The square with indices `(file, rank)`.
    pub fn get_from_tup(&self, index: (u8, u8)) -> (r: Option<&Square>)
        requires
            grid_wf(self.squares),
        ensures
            r is Some <==> index.0 < 8 && index.1 < 8,
            r matches Some(sq) ==> sq.wf() && at(*sq, index.0 as int, index.1 as int),
    {
        self.get_from_coord(index.0, index.1)
    }

    /// Position in `pieces` of the piece on `square`, if any.
    fn find_piece(&self, square: &Square) -> (r: Option<usize>)
        requires
            pieces_wf(self.pieces@),
        ensures
            r is Some <==> occupied(self.pieces@, file_idx(*square), rank_idx(*square)),
            r matches Some(i) ==> i < self.pieces@.len() && at(
                self.pieces@[i as int].square,
                file_idx(*square),
                rank_idx(*square),
            ) && occupant(self.pieces@, file_idx(*square), rank_idx(*square)) == Some(
                self.pieces@[i as int],
            ),
    {
        let mut i: usize = 0;
        while i < self.pieces.len()
            invariant
                pieces_wf(self.pieces@),
                i <= self.pieces@.len(),
                forall|j: int|
                    0 <= j < i ==> !at(
                        (#[trigger] self.pieces@[j]).square,
                        file_idx(*square),
                        rank_idx(*square),
                    ),
            decreases self.pieces@.len() - i,
        {
            let p = &self.pieces[i];
            if p.square.pos.0 == square.pos.0 && p.square.pos.1 == square.pos.1 {
                proof {
                    lemma_occupant_index(self.pieces@, i as int);
                }
                return Some(i);
            }
            i += 1;
        }
        None
    }

    /// The piece on `square`, if any.
    pub fn check_square_for_piece(&self, square: &Square) -> (r: Option<&Piece>)
        requires
            pieces_wf(self.pieces@),
        ensures
            match r {
                Some(p) => occupant(self.pieces@, file_idx(*square), rank_idx(*square)) == Some(
                    *p,
                ),
                None => occupant(self.pieces@, file_idx(*square), rank_idx(*square)) is None,
            },
    {
        match self.find_piece(square) {
            Some(i) => Some(&self.pieces[i]),
            None => None,
        }
    }

    /// Places `piece` on its square, which must be empty.
    pub fn add_piece(&mut self, piece: Piece)
        requires
            old(self).wf(),
            piece.square.wf(),
            !occupied(old(self).pieces@, file_idx(piece.square), rank_idx(piece.square)),
        ensures
            final(self).wf(),
            final(self).squares == old(self).squares,
            final(self).is_valid == old(self).is_valid,
            final(self).pieces@ == old(self).pieces@.push(piece),
            forall|f: int, r: int|
                #[trigger] occupant(final(self).pieces@, f, r) == if at(piece.square, f, r) {
                    Some(piece)
                } else {
                    occupant(old(self).pieces@, f, r)
                },
    {
        let ghost ps = self.pieces@;
        self.pieces.push(piece);
        proof {
            let qs = ps.push(piece);
            assert forall|i: int, j: int|
                0 <= i < qs.len() && 0 <= j < qs.len() && i != j implies (#[trigger] qs[i]).square.pos
                != (#[trigger] qs[j]).square.pos by {
                if i == ps.len() {
                    assert(!at(ps[j].square, file_idx(piece.square), rank_idx(piece.square)));
                } else if j == ps.len() {
                    assert(!at(ps[i].square, file_idx(piece.square), rank_idx(piece.square)));
                }
            }
            assert forall|f: int, r: int|
                #[trigger] occupant(qs, f, r) == if at(piece.square, f, r) {
                    Some(piece)
                } else {
                    occupant(ps, f, r)
                } by {
                lemma_occupant_push(ps, piece, f, r);
            }
        }
    }

    /// Takes away whatever stands on `square`; nothing happens if it is empty.
    pub fn remove_piece_by_square(&mut self, square: &Square)
        requires
            old(self).wf(),
        ensures
            final(self).wf(),
            final(self).squares == old(self).squares,
            final(self).is_valid == old(self).is_valid,
            final(self).pieces@ == without(old(self).pieces@, file_idx(*square), rank_idx(*square)),
            forall|f: int, r: int|
                #[trigger] occupant(final(self).pieces@, f, r) == if at(*square, f, r) {
                    None
                } else {
                    occupant(old(self).pieces@, f, r)
                },
    {
        let ghost ps = self.pieces@;
        let mut kept: Vec<Piece> = Vec::new();
        let ghost mut idx: Seq<int> = Seq::empty();
        let mut i: usize = 0;
        while i < self.pieces.len()
            invariant
                ps == self.pieces@,
                pieces_wf(ps),
                i <= ps.len(),
                kept@ == without(ps.subrange(0, i as int), file_idx(*square), rank_idx(*square)),
                idx.len() == kept@.len(),
                forall|k: int| 0 <= k < idx.len() ==> 0 <= #[trigger] idx[k] < i,
                forall|k: int|
                    0 <= k < idx.len() ==> kept@[k] == ps[#[trigger] idx[k]] && !at(
                        ps[idx[k]].square,
                        file_idx(*square),
                        rank_idx(*square),
                    ),
                forall|k1: int, k2: int|
                    0 <= k1 < k2 < idx.len() ==> #[trigger] idx[k1] < #[trigger] idx[k2],
                forall|j: int|
                    0 <= j < i && !at((#[trigger] ps[j]).square, file_idx(*square), rank_idx(*square))
                        ==> exists|k: int| 0 <= k < idx.len() && idx[k] == j,
            decreases ps.len() - i,
        {
            let p = self.pieces[i];
            assert(ps.subrange(0, i as int + 1).drop_last() == ps.subrange(0, i as int));
            if !(p.square.pos.0 == square.pos.0 && p.square.pos.1 == square.pos.1) {
                kept.push(p);
                proof {
                    let old_idx = idx;
                    idx = idx.push(i as int);
                    assert forall|j: int|
                        0 <= j < i + 1 && !at(
                            (#[trigger] ps[j]).square,
                            file_idx(*square),
                            rank_idx(*square),
                        ) implies exists|k: int| 0 <= k < idx.len() && idx[k] == j by {
                        if j == i {
                            assert(idx[idx.len() - 1] == j);
                        } else {
                            let k = choose|k: int| 0 <= k < old_idx.len() && old_idx[k] == j;
                            assert(idx[k] == j);
                        }
                    }
                }
            }
            i += 1;
        }
        proof {
            let qs = kept@;
            assert(ps.subrange(0, ps.len() as int) == ps);
            assert forall|k1: int, k2: int|
                0 <= k1 < qs.len() && 0 <= k2 < qs.len() && k1 != k2 implies (#[trigger] qs[k1]).square.pos
                != (#[trigger] qs[k2]).square.pos by {
                if k1 < k2 {
                    assert(idx[k1] < idx[k2]);
                } else {
                    assert(idx[k2] < idx[k1]);
                }
                assert(ps[idx[k1]].square.pos != ps[idx[k2]].square.pos);
            }
            assert forall|k: int| 0 <= k < qs.len() implies (#[trigger] qs[k]).square.wf() by {
                assert(ps[idx[k]].square.wf());
            }
            assert forall|f: int, r: int|
                #[trigger] occupant(qs, f, r) == if at(*square, f, r) {
                    None
                } else {
                    occupant(ps, f, r)
                } by {
                if occupied(qs, f, r) {
                    let k = choose|k: int| 0 <= k < qs.len() && at((#[trigger] qs[k]).square, f, r);
                    lemma_occupant_index(qs, k);
                    lemma_occupant_index(ps, idx[k]);
                } else if occupied(ps, f, r) && !at(*square, f, r) {
                    let j = choose|j: int| 0 <= j < ps.len() && at((#[trigger] ps[j]).square, f, r);
                    let k = choose|k: int| 0 <= k < idx.len() && idx[k] == j;
                    assert(at(qs[k].square, f, r));
                }
            }
        }
        self.pieces = kept;
    }

    /// Takes `piece` off the board, if it stands there.
    pub fn remove_piece(&mut self, piece: Piece)
        requires
            old(self).wf(),
        ensures
            final(self).wf(),
            final(self).squares == old(self).squares,
            final(self).is_valid == old(self).is_valid,
            forall|f: int, r: int|
                #[trigger] occupant(final(self).pieces@, f, r) == if occupant(
                    old(self).pieces@,
                    f,
                    r,
                ) == Some(piece) {
                    None
                } else {
                    occupant(old(self).pieces@, f, r)
                },
    {
        let found = match self.check_square_for_piece(&piece.square) {
            Some(p) => *p == piece,
            None => false,
        };
        if found {
            self.remove_piece_by_square(&piece.square);
            proof {
                assert forall|f: int, r: int|
                    #[trigger] occupant(self.pieces@, f, r) == if occupant(
                        old(self).pieces@,
                        f,
                        r,
                    ) == Some(piece) {
                        None
                    } else {
                        occupant(old(self).pieces@, f, r)
                    } by {
                    if occupant(old(self).pieces@, f, r) == Some(piece) {
                        let ps = old(self).pieces@;
                        let i = choose|i: int| 0 <= i < ps.len() && at((#[trigger] ps[i]).square, f, r);
                        assert(at(piece.square, f, r));
                    }
                }
            }
        } else {
            proof {
                assert forall|f: int, r: int|
                    occupant(old(self).pieces@, f, r) != Some(piece) by {
                    if occupant(old(self).pieces@, f, r) == Some(piece) {
                        let ps = old(self).pieces@;
                        let i = choose|i: int| 0 <= i < ps.len() && at((#[trigger] ps[i]).square, f, r);
                        assert(at(piece.square, f, r));
                        assert(occupied(ps, file_idx(piece.square), rank_idx(piece.square)));
                    }
                }
            }
        }
    }
}

/// How a square relates to another: 0 for the same rank, 1 for the same file,
/// 2 for the same diagonal (the square itself included).
pub open spec fn related(kind: u8, s: Square, t: Square) -> bool {
    if kind == 0 {
        rank_idx(t) == rank_idx(s)
    } else if kind == 1 {
        file_idx(t) == file_idx(s)
    } else {
        file_idx(t) - file_idx(s) == rank_idx(t) - rank_idx(s) || file_idx(t) - file_idx(s)
            == rank_idx(s) - rank_idx(t)
    }
}

impl Board {
    /// All 64 squares, rank by rank.
    pub fn squares_as_vec(&self) -> (r: Vec<Square>)
        requires
            grid_wf(self.squares),
        ensures
            r@.len() == 64,
            forall|rk: int, f: int| on_board(f, rk) ==> r@[8 * rk + f] == #[trigger] self.squares[rk][f],
            r@.no_duplicates(),
            forall|t: Square| #[trigger] r@.contains(t) <==> t.wf(),
    {
        let mut res: Vec<Square> = Vec::new();
        let mut rank: usize = 0;
        while rank < 8
            invariant
                rank <= 8,
                grid_wf(self.squares),
                res@.no_duplicates(),
                res@.len() == 8 * rank,
                forall|rk: int, f: int|
                    on_board(f, rk) && rk < rank ==> res@[8 * rk + f] == #[trigger] self.squares[rk][f],
                forall|t: Square|
                    #[trigger] res@.contains(t) <==> t.wf() && rank_idx(t) < rank,
            decreases 8 - rank,
        {
            let mut file: usize = 0;
            while file < 8
                invariant
                    rank < 8,
                    file <= 8,
                    grid_wf(self.squares),
                    res@.no_duplicates(),
                    res@.len() == 8 * rank + file,
                    forall|rk: int, f: int|
                        on_board(f, rk) && (rk < rank || (rk == rank && f < file)) ==> res@[8 * rk + f]
                            == #[trigger] self.squares[rk][f],
                    forall|t: Square|
                        #[trigger] res@.contains(t) <==> t.wf() && (rank_idx(t) < rank || (rank_idx(
                            t,
                        ) == rank && file_idx(t) < file)),
                decreases 8 - file,
            {
                let sq = self.squares[rank][file];
                assert(at(sq, file as int, rank as int));
                let ghost before = res@;
                assert(!before.contains(sq));
                res.push(sq);
                proof {
                    assert forall|rk: int, f: int|
                        on_board(f, rk) && (rk < rank || (rk == rank && f < file + 1)) implies res@[8 * rk + f]
                            == #[trigger] self.squares[rk][f] by {
                        if rk == rank && f == file {
                            assert(8 * rk + f == before.len());
                        } else {
                            assert(before[8 * rk + f] == self.squares[rk][f]);
                        }
                    }
                    assert forall|a: int, b: int| 0 <= a < res@.len() && 0 <= b < res@.len() && a != b implies res@[a] != res@[b] by {
                        if a == res@.len() - 1 {
                            assert(before[b] == res@[b]);
                        } else if b == res@.len() - 1 {
                            assert(before[a] == res@[a]);
                        } else {
                            assert(before[a] == res@[a] && before[b] == res@[b]);
                        }
                    }
                    assert forall|t: Square| #[trigger] res@.contains(t) <==> t.wf() && (rank_idx(t)
                        < rank || (rank_idx(t) == rank && file_idx(t) < file + 1)) by {
                        if res@.contains(t) {
                            let k = choose|k: int| 0 <= k < res@.len() && res@[k] == t;
                            if k < before.len() {
                                assert(before[k] == t);
                            }
                        }
                        if t.wf() && rank_idx(t) == rank && file_idx(t) == file {
                            assert(t.pos.0 == sq.pos.0 && t.pos.1 == sq.pos.1);
                            assert(res@[res@.len() - 1] == t);
                        } else if before.contains(t) {
                            let k = choose|k: int| 0 <= k < before.len() && before[k] == t;
                            assert(res@[k] == t);
                        }
                    }
                }
                file += 1;
            }
            rank += 1;
        }
        res
    }

    /// All 64 squares, each once.
    pub fn squares_as_set(&self) -> (r: Vec<Square>)
        requires
            grid_wf(self.squares),
        ensures
            r@.no_duplicates(),
            forall|t: Square| #[trigger] r@.contains(t) <==> t.wf(),
    {
        self.squares_as_vec()
    }

    /// The squares related to `square` as `kind` says (see `related`).
    fn squares_where(&self, square: &Square, kind: u8) -> (r: Vec<Square>)
        requires
            grid_wf(self.squares),
            square.wf(),
        ensures
            r@.no_duplicates(),
            forall|t: Square| #[trigger] r@.contains(t) <==> t.wf() && related(kind, *square, t),
    {
        let all = self.squares_as_vec();
        let mut res: Vec<Square> = Vec::new();
        let mut i: usize = 0;
        while i < all.len()
            invariant
                i <= all@.len(),
                square.wf(),
                all@.no_duplicates(),
                forall|t: Square| #[trigger] all@.contains(t) <==> t.wf(),
                res@.no_duplicates(),
                forall|t: Square|
                    #[trigger] res@.contains(t) <==> all@.subrange(0, i as int).contains(t) && related(
                        kind,
                        *square,
                        t,
                    ),
            decreases all@.len() - i,
        {
            let t = all[i];
            assert(all@.contains(t));
            let df = t.file() as i16 - square.file() as i16;
            let dr = t.rank() as i16 - square.rank() as i16;
            let keep = if kind == 0 {
                dr == 0
            } else if kind == 1 {
                df == 0
            } else {
                df == dr || df == -dr
            };
            let ghost before = res@;
            let ghost pre = all@.subrange(0, i as int);
            let ghost post = all@.subrange(0, i as int + 1);
            proof {
                assert forall|x: Square| #[trigger] post.contains(x) <==> pre.contains(x) || x == t by {
                    if post.contains(x) {
                        let k = choose|k: int| 0 <= k < post.len() && post[k] == x;
                        if k < pre.len() {
                            assert(pre[k] == x);
                        }
                    }
                    if pre.contains(x) {
                        let k = choose|k: int| 0 <= k < pre.len() && pre[k] == x;
                        assert(post[k] == x);
                    }
                    if x == t {
                        assert(post[i as int] == x);
                    }
                }
                assert(!pre.contains(t)) by {
                    if pre.contains(t) {
                        let k = choose|k: int| 0 <= k < pre.len() && pre[k] == t;
                        assert(all@[k] == all@[i as int]);
                    }
                }
            }
            if keep {
                assert(!before.contains(t));
                res.push(t);
                proof {
                    assert forall|a: int, b: int| 0 <= a < res@.len() && 0 <= b < res@.len() && a != b implies res@[a] != res@[b] by {
                        if a == res@.len() - 1 {
                            assert(before[b] == res@[b]);
                            assert(before.contains(res@[b]));
                        } else if b == res@.len() - 1 {
                            assert(before[a] == res@[a]);
                            assert(before.contains(res@[a]));
                        } else {
                            assert(before[a] == res@[a] && before[b] == res@[b]);
                        }
                    }
                    assert forall|x: Square| #[trigger] res@.contains(x) <==> before.contains(x) || x == t by {
                        if res@.contains(x) {
                            let k = choose|k: int| 0 <= k < res@.len() && res@[k] == x;
                            if k < before.len() {
                                assert(before[k] == x);
                            }
                        }
                        if before.contains(x) {
                            let k = choose|k: int| 0 <= k < before.len() && before[k] == x;
                            assert(res@[k] == x);
                        }
                        if x == t {
                            assert(res@[res@.len() - 1] == x);
                        }
                    }
                }
            }
            i += 1;
        }
        assert(all@.subrange(0, all@.len() as int) == all@);
        res
    }

    /// The eight squares of the rank of `square`.
    pub fn get_rank_from_square(&self, square: &Square) -> (r: Vec<Square>)
        requires
            grid_wf(self.squares),
            square.wf(),
        ensures
            r@.no_duplicates(),
            forall|t: Square| #[trigger] r@.contains(t) <==> t.wf() && rank_idx(t) == rank_idx(*square),
    {
        self.squares_where(square, 0)
    }

    /// The eight squares of the file of `square`.
    pub fn get_file_from_square(&self, square: &Square) -> (r: Vec<Square>)
        requires
            grid_wf(self.squares),
            square.wf(),
        ensures
            r@.no_duplicates(),
            forall|t: Square| #[trigger] r@.contains(t) <==> t.wf() && file_idx(t) == file_idx(*square),
    {
        self.squares_where(square, 1)
    }

    /// `square` and the squares on its two diagonals.
    pub fn get_diag_from_square(&self, square: &Square) -> (r: Vec<Square>)
        requires
            grid_wf(self.squares),
            square.wf(),
        ensures
            r@.no_duplicates(),
            forall|t: Square|
                #[trigger] r@.contains(t) <==> t.wf() && (file_idx(t) - file_idx(*square) == rank_idx(t)
                    - rank_idx(*square) || file_idx(t) - file_idx(*square) == rank_idx(*square)
                    - rank_idx(t)),
    {
        self.squares_where(square, 2)
    }
}

/// A piece placed on an empty square of a board is what the board then holds
/// on that square.
pub proof fn lemma_place_then_at(before: Board, after: Board, p: Piece)
    requires
        before.wf(),
        p.square.wf(),
        !occupied(before.pieces@, file_idx(p.square), rank_idx(p.square)),
        after.pieces@ == before.pieces@.push(p),
    ensures
        occupant(after.pieces@, file_idx(p.square), rank_idx(p.square)) == Some(p),
{
    let ps = before.pieces@;
    let qs = after.pieces@;
    assert forall|i: int, j: int|
        0 <= i < qs.len() && 0 <= j < qs.len() && i != j implies (#[trigger] qs[i]).square.pos
        != (#[trigger] qs[j]).square.pos by {
        if i == ps.len() {
            assert(!at(ps[j].square, file_idx(p.square), rank_idx(p.square)));
        } else if j == ps.len() {
            assert(!at(ps[i].square, file_idx(p.square), rank_idx(p.square)));
        }
    }
    lemma_occupant_push(ps, p, file_idx(p.square), rank_idx(p.square));
}

/// The indices met walking from `(f, r)` in steps of `(dx, dy)` until the
/// edge of the board, at most `fuel` of them, in order.
pub open spec fn line_coords(f: int, r: int, dx: int, dy: int, fuel: nat) -> Seq<(int, int)>
    decreases fuel,
{
    if fuel == 0 || !on_board(f + dx, r + dy) {
        seq![]
    } else {
        seq![(f + dx, r + dy)] + line_coords(f + dx, r + dy, dx, dy, (fuel - 1) as nat)
    }
}

impl Board {
    /// The pieces on the board.
    pub fn occupants(&self) -> (r: &Vec<Piece>)
        ensures
            r@ == self.pieces@,
    {
        &self.pieces
    }

    /// The squares from `square` outward along `direction` (a step of at most
    /// one file and one rank) up to the edge of the board, nearest first.
    pub fn line(&self, square: &Square, direction: (i8, i8)) -> (r: Vec<Square>)
        requires
            square.wf(),
            -1 <= direction.0 <= 1,
            -1 <= direction.1 <= 1,
            direction.0 != 0 || direction.1 != 0,
        ensures
            r@.len() == line_coords(
                file_idx(*square),
                rank_idx(*square),
                direction.0 as int,
                direction.1 as int,
                7,
            ).len(),
            forall|k: int|
                0 <= k < r@.len() ==> (#[trigger] r@[k]).wf() && at(
                    r@[k],
                    line_coords(
                        file_idx(*square),
                        rank_idx(*square),
                        direction.0 as int,
                        direction.1 as int,
                        7,
                    )[k].0,
                    line_coords(
                        file_idx(*square),
                        rank_idx(*square),
                        direction.0 as int,
                        direction.1 as int,
                        7,
                    )[k].1,
                ),
    {
        let ghost whole = line_coords(
            file_idx(*square),
            rank_idx(*square),
            direction.0 as int,
            direction.1 as int,
            7,
        );
        let ghost mut walked: Seq<(int, int)> = seq![];
        let mut res: Vec<Square> = Vec::new();
        let mut cur = *square;
        let mut fuel: u8 = 7;
        while fuel > 0
            invariant
                cur.wf(),
                fuel <= 7,
                whole == walked + line_coords(
                    file_idx(cur),
                    rank_idx(cur),
                    direction.0 as int,
                    direction.1 as int,
                    fuel as nat,
                ),
                res@.len() == walked.len(),
                forall|k: int|
                    0 <= k < res@.len() ==> (#[trigger] res@[k]).wf() && at(
                        res@[k],
                        walked[k].0,
                        walked[k].1,
                    ),
            decreases fuel,
        {
            match cur.move_by(direction) {
                Some(next) => {
                    let ghost step = (file_idx(next), rank_idx(next));
                    res.push(next);
                    proof {
                        let rest = line_coords(
                            file_idx(next),
                            rank_idx(next),
                            direction.0 as int,
                            direction.1 as int,
                            (fuel - 1) as nat,
                        );
                        assert(walked + (seq![step] + rest) =~= walked.push(step) + rest);
                        walked = walked.push(step);
                    }
                    cur = next;
                    fuel -= 1;
                },
                None => {
                    proof {
                        assert(walked + seq![] =~= walked);
                    }
                    fuel = 0;
                },
            }
        }
        proof {
            assert(walked + seq![] =~= walked);
        }
        res
    }
}

} // verus!

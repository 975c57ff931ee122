use vstd::prelude::*;
use vstd::string::*;

use crate::board::{
    at, file_idx, file_of_char, grid_wf, holds_color, is_square_text, occupant, occupied, on_board, opponent,
    pieces_wf, rank_idx, rank_of_char, without, Board, Color, Figure, Piece, Square,
};
use crate::error::ChessError;
use crate::pieces::{candidate, forward, under_attack};

verus! {

/// A king and a rook of its color that may still castle together.
pub type CastlingPair = (Piece, Piece);

/// A pawn that has just advanced two squares, and the square it passed over.
pub type EnPassantEntry = (Piece, Square);

pub struct GameBuilder {}

/// Player and event information of a game; none is kept yet.
#[derive(Clone, Copy, Debug, PartialEq, Eq, Structural)]
pub struct GameMeta {}

pub struct GameTreeNode {}

pub struct MoveMeta {}

pub enum MoveMetaFlag {
    EnPassant,
    Castling,
    Promotion,
}

pub struct Variation {}

#[derive(Clone, Copy, Debug, PartialEq, Eq, Structural)]
pub enum GameResult {
    WhiteWin,
    BlackWin,
    Draw,
}

/// A piece (as it stands before moving) and the square it goes to.
#[derive(Clone, Copy, Debug, Eq, Hash)]
pub struct Move {
    pub piece: Piece,
    pub target_square: Square,
}

impl PartialEq for Move {
    fn eq(&self, other: &Move) -> (r: bool) {
        self.piece == other.piece && self.target_square == other.target_square
    }
}

impl vstd::std_specs::cmp::PartialEqSpecImpl for Move {
    open spec fn obeys_eq_spec() -> bool {
        true
    }

    open spec fn eq_spec(&self, other: &Move) -> bool {
        *self == *other
    }
}

/// Whose turn it is, the result once there is one, whether the side to move is
/// in check, the castling rights still held, and the pawn that may be taken en
/// passant on this ply.
#[derive(Clone, Debug)]
pub struct State {
    pub turn: Color,
    pub result: Option<GameResult>,
    pub check: bool,
    pub castling_privileges: Vec<CastlingPair>,
    pub possible_en_passant_moves: Vec<EnPassantEntry>,
}

#[derive(Clone, Debug)]
pub struct Game {
    pub meta: Option<GameMeta>,
    pub board: Board,
    pub state: State,
    pub moves: Vec<Move>,
}

/// Rank index of the first rank of color `c`.
pub open spec fn back_rank(c: Color) -> int {
    match c {
        Color::White => 0,
        Color::Black => 7,
    }
}

/// Rank index on which a pawn of color `c` is promoted.
pub open spec fn last_rank(c: Color) -> int {
    match c {
        Color::White => 7,
        Color::Black => 0,
    }
}

impl Move {
    /// Both squares of the move lie on the board.
    pub open spec fn wf(self) -> bool {
        self.piece.square.wf() && self.target_square.wf()
    }
}

/// A king on its home square moving two files along its first rank.
pub open spec fn is_castling(m: Move) -> bool {
    let b = back_rank(m.piece.color);
    m.piece.figure == Figure::King && at(m.piece.square, 4, b) && (at(m.target_square, 6, b) || at(
        m.target_square,
        2,
        b,
    ))
}

/// File of the rook that castles along with move `m`.
pub open spec fn rook_home_file(m: Move) -> int {
    if file_idx(m.target_square) == 6 {
        7
    } else {
        0
    }
}

/// File on which that rook lands.
pub open spec fn rook_castled_file(m: Move) -> int {
    if file_idx(m.target_square) == 6 {
        5
    } else {
        3
    }
}

/// A pawn moving to another file onto an empty square takes en passant.
pub open spec fn is_en_passant(ps: Seq<Piece>, m: Move) -> bool {
    m.piece.figure == Figure::Pawn && file_idx(m.target_square) != file_idx(m.piece.square)
        && !occupied(ps, file_idx(m.target_square), rank_idx(m.target_square))
}

/// The figure that stands on the target square after the move: a pawn that
/// reaches its last rank becomes a queen.
pub open spec fn promoted(m: Move) -> Figure {
    if m.piece.figure == Figure::Pawn && rank_idx(m.target_square) == last_rank(m.piece.color) {
        Figure::Queen
    } else {
        m.piece.figure
    }
}

/// The moving piece as it stands after the move.
pub open spec fn moved_piece(m: Move) -> Piece {
    Piece { color: m.piece.color, figure: promoted(m), square: m.target_square }
}

/// The pieces after the king and rook of a castling have been dealt with.
pub open spec fn castle_rook(grid: [[Square; 8]; 8], s2: Seq<Piece>, m: Move) -> Seq<Piece> {
    let b = back_rank(m.piece.color);
    if is_castling(m) && occupied(s2, rook_home_file(m), b) {
        let rook = occupant(s2, rook_home_file(m), b)->0;
        without(without(s2, rook_home_file(m), b), rook_castled_file(m), b).push(
            Piece { color: rook.color, figure: rook.figure, square: grid[b][rook_castled_file(m)] },
        )
    } else {
        s2
    }
}

/// The placement after move `m`: the mover leaves its square, whatever stands
/// on the target is taken, a castling rook jumps over the king, a pawn taken
/// en passant leaves, and the mover (promoted if need be) stands on the target.
pub open spec fn apply_pieces(grid: [[Square; 8]; 8], ps: Seq<Piece>, m: Move) -> Seq<Piece> {
    let sf = file_idx(m.piece.square);
    let sr = rank_idx(m.piece.square);
    let tf = file_idx(m.target_square);
    let tr = rank_idx(m.target_square);
    let s2 = without(without(ps, sf, sr), tf, tr);
    let s3 = castle_rook(grid, s2, m);
    let s4 = if is_en_passant(ps, m) {
        without(s3, tf, sr)
    } else {
        s3
    };
    s4.push(moved_piece(m))
}

/// A king of color `c` is attacked.
pub open spec fn in_check_on(ps: Seq<Piece>, c: Color) -> bool {
    exists|i: int|
        0 <= i < ps.len() && (#[trigger] ps[i]).color == c && ps[i].figure == Figure::King
            && under_attack(ps, ps[i])
}

/// A piece is on a well-formed placement exactly when it is the occupant of
/// its own square.
pub proof fn lemma_contains_occupant(ps: Seq<Piece>, p: Piece)
    requires
        pieces_wf(ps),
    ensures
        ps.contains(p) <==> p.square.wf() && occupant(ps, file_idx(p.square), rank_idx(p.square))
            == Some(p),
{
    if ps.contains(p) {
        let i = choose|i: int| 0 <= i < ps.len() && ps[i] == p;
        crate::board::lemma_occupant_index(ps, i);
    }
    if p.square.wf() && occupant(ps, file_idx(p.square), rank_idx(p.square)) == Some(p) {
        let f = file_idx(p.square);
        let r = rank_idx(p.square);
        let i = choose|i: int| 0 <= i < ps.len() && at((#[trigger] ps[i]).square, f, r);
        assert(ps[i] == p);
    }
}

impl Board {
    /// Copies the placement.
    fn copy_board(&self) -> (b: Board)
        ensures
            b.squares == self.squares,
            b.pieces@ == self.pieces@,
            b.is_valid == self.is_valid,
    {
        Board { squares: self.squares, pieces: copy_vec(&self.pieces), is_valid: self.is_valid }
    }

    /// Plays `m` on the board (see `apply_pieces`), with no check of legality.
    pub fn play(&mut self, m: Move)
        requires
            old(self).wf(),
            m.wf(),
        ensures
            final(self).wf(),
            final(self).squares == old(self).squares,
            final(self).is_valid == old(self).is_valid,
            final(self).pieces@ == apply_pieces(old(self).squares, old(self).pieces@, m),
    {
        let en_passant = m.piece.figure == Figure::Pawn && m.target_square.file()
            != m.piece.square.file() && self.check_square_for_piece(&m.target_square).is_none();
        self.remove_piece_by_square(&m.piece.square);
        self.remove_piece_by_square(&m.target_square);
        let back: i8 = match m.piece.color {
            Color::White => 0,
            Color::Black => 7,
        };
        let castling = m.piece.figure == Figure::King && m.piece.square.file() == 4
            && m.piece.square.rank() == back && m.target_square.rank() == back && (
        m.target_square.file() == 6 || m.target_square.file() == 2);
        let ghost s2 = self.pieces@;
        assert(occupant(self.pieces@, file_idx(m.target_square), rank_idx(m.target_square)) is None);
        if castling {
            let (home, castled): (i8, i8) = if m.target_square.file() == 6 {
                (7, 5)
            } else {
                (0, 3)
            };
            let from = Square::from_coords(home, back);
            match self.check_square_for_piece(&from) {
                Some(rook) => {
                    let rook = *rook;
                    let to = self.squares[back as usize][castled as usize];
                    self.remove_piece_by_square(&from);
                    self.remove_piece_by_square(&to);
                    assert(occupant(self.pieces@, file_idx(to), rank_idx(to)) is None);
                    assert(occupant(self.pieces@, file_idx(m.target_square), rank_idx(m.target_square)) is None);
                    self.add_piece(Piece { color: rook.color, figure: rook.figure, square: to });
                    assert(occupant(self.pieces@, file_idx(m.target_square), rank_idx(m.target_square)) is None);
                },
                None => {},
            }
        }
        assert(self.pieces@ == castle_rook(self.squares, s2, m));
        if en_passant {
            let taken = Square::from_coords(m.target_square.file(), m.piece.square.rank());
            self.remove_piece_by_square(&taken);
        }
        assert(occupant(self.pieces@, file_idx(m.target_square), rank_idx(m.target_square)) is None);
        let last: i8 = match m.piece.color {
            Color::White => 7,
            Color::Black => 0,
        };
        let figure = if m.piece.figure == Figure::Pawn && m.target_square.rank() == last {
            Figure::Queen
        } else {
            m.piece.figure
        };
        self.add_piece(Piece { color: m.piece.color, figure, square: m.target_square });
    }

    /// Whether a king of color `color` is attacked.
    fn king_in_check(&self, color: Color) -> (r: bool)
        requires
            pieces_wf(self.pieces@),
        ensures
            r == in_check_on(self.pieces@, color),
    {
        let mut i: usize = 0;
        while i < self.pieces.len()
            invariant
                i <= self.pieces@.len(),
                pieces_wf(self.pieces@),
                forall|j: int|
                    0 <= j < i ==> !((#[trigger] self.pieces@[j]).color == color
                        && self.pieces@[j].figure == Figure::King && under_attack(
                        self.pieces@,
                        self.pieces@[j],
                    )),
            decreases self.pieces@.len() - i,
        {
            let p = self.pieces[i];
            if p.color == color && p.figure == Figure::King && self.is_attacked(p) {
                return true;
            }
            i += 1;
        }
        false
    }
}

/// A copy of `v`.
fn copy_vec<T: Copy>(v: &Vec<T>) -> (r: Vec<T>)
    ensures
        r@ == v@,
{
    let mut r: Vec<T> = Vec::new();
    let mut i: usize = 0;
    while i < v.len()
        invariant
            i <= v@.len(),
            r@ == v@.subrange(0, i as int),
        decreases v@.len() - i,
    {
        r.push(v[i]);
        i += 1;
    }
    r
}

/// An ordinary move of a piece of color `c` to one of its candidate squares.
pub open spec fn piece_move(ps: Seq<Piece>, c: Color, m: Move) -> bool {
    ps.contains(m.piece) && m.piece.color == c && candidate(ps, m.piece, m.target_square)
}

/// The squares between the king's file and the rook's file on rank `b` are empty.
pub open spec fn castle_path_clear(ps: Seq<Piece>, b: int, kingside: bool) -> bool {
    if kingside {
        !occupied(ps, 5, b) && !occupied(ps, 6, b)
    } else {
        !occupied(ps, 1, b) && !occupied(ps, 2, b) && !occupied(ps, 3, b)
    }
}

/// `m` castles the king and rook of `pair`: both still stand on their home
/// squares, the squares between them are empty, the king is not in check and
/// would not be on the square it crosses.
pub open spec fn castle_by(g: Game, c: Color, pair: CastlingPair, m: Move) -> bool {
    let k = pair.0;
    let r = pair.1;
    let ps = g.board.pieces@;
    let grid = g.board.squares;
    let b = back_rank(c);
    let kingside = file_idx(r.square) == 7;
    let crossed = if kingside {
        5
    } else {
        3
    };
    let dest = if kingside {
        6
    } else {
        2
    };
    &&& k.color == c && k.figure == Figure::King && r.color == c && r.figure == Figure::Rook
    &&& ps.contains(k) && ps.contains(r)
    &&& at(k.square, 4, b) && (at(r.square, 7, b) || at(r.square, 0, b))
    &&& castle_path_clear(ps, b, kingside)
    &&& !in_check_on(ps, c)
    &&& !in_check_on(apply_pieces(grid, ps, Move { piece: k, target_square: grid[b][crossed] }), c)
    &&& m == Move { piece: k, target_square: grid[b][dest] }
}

/// `m` takes the pawn of `entry` en passant: a pawn of color `c` beside it
/// moves diagonally onto the empty square it passed over.
pub open spec fn en_passant_by(g: Game, c: Color, entry: EnPassantEntry, m: Move) -> bool {
    let q = entry.0;
    let s = entry.1;
    let ps = g.board.pieces@;
    &&& q.color != c && ps.contains(q)
    &&& ps.contains(m.piece) && m.piece.color == c && m.piece.figure == Figure::Pawn
    &&& m.target_square == s && s.wf()
    &&& (file_idx(s) == file_idx(m.piece.square) + 1 || file_idx(s) == file_idx(m.piece.square) - 1)
    &&& rank_idx(s) == rank_idx(m.piece.square) + forward(c)
    &&& !occupied(ps, file_idx(s), rank_idx(s))
    &&& at(q.square, file_idx(s), rank_idx(m.piece.square))
}

/// A move of color `c` by the geometry of its pieces, castling or en passant,
/// before the king-safety filter.
pub open spec fn candidate_move(g: Game, c: Color, m: Move) -> bool {
    ||| piece_move(g.board.pieces@, c, m)
    ||| exists|i: int|
        0 <= i < g.state.castling_privileges@.len() && castle_by(
            g,
            c,
            #[trigger] g.state.castling_privileges@[i],
            m,
        )
    ||| exists|i: int|
        0 <= i < g.state.possible_en_passant_moves@.len() && en_passant_by(
            g,
            c,
            #[trigger] g.state.possible_en_passant_moves@[i],
            m,
        )
}

/// A candidate move of color `c` after which no king of color `c` is attacked.
pub open spec fn legal_move(g: Game, c: Color, m: Move) -> bool {
    candidate_move(g, c, m) && !in_check_on(apply_pieces(g.board.squares, g.board.pieces@, m), c)
}

/// Membership in a prefix grows by one element per step.
pub proof fn lemma_prefix_contains<T>(s: Seq<T>, i: int)
    requires
        0 <= i < s.len(),
    ensures
        forall|x: T|
            #[trigger] s.subrange(0, i + 1).contains(x) <==> s.subrange(0, i).contains(x) || x
                == s[i],
{
    let pre = s.subrange(0, i);
    let post = s.subrange(0, i + 1);
    assert forall|x: T| #[trigger] post.contains(x) <==> pre.contains(x) || x == s[i] by {
        if post.contains(x) {
            let k = choose|k: int| 0 <= k < post.len() && post[k] == x;
            if k < pre.len() {
                assert(pre[k] == x);
            }
        }
        if pre.contains(x) {
            let k = choose|k: int| 0 <= k < pre.len() && pre[k] == x;
            assert(post[k] == x);
        }
        if x == s[i] {
            assert(post[i] == x);
        }
    }
}

/// Whether `v` holds `m`.
fn contains_move(v: &Vec<Move>, m: Move) -> (r: bool)
    ensures
        r == v@.contains(m),
{
    let mut i: usize = 0;
    while i < v.len()
        invariant
            i <= v@.len(),
            forall|j: int| 0 <= j < i ==> v@[j] != m,
        decreases v@.len() - i,
    {
        if v[i] == m {
            return true;
        }
        i += 1;
    }
    false
}

/// Adds `m` to `v` unless it is there already.
fn insert_move(v: &mut Vec<Move>, m: Move)
    requires
        old(v)@.no_duplicates(),
    ensures
        final(v)@.no_duplicates(),
        forall|x: Move| #[trigger] final(v)@.contains(x) <==> old(v)@.contains(x) || x == m,
{
    if !contains_move(v, m) {
        v.push(m);
        proof {
            assert forall|x: Move| #[trigger] v@.contains(x) <==> old(v)@.contains(x) || x == m by {
                if v@.contains(x) {
                    let k = choose|k: int| 0 <= k < v@.len() && v@[k] == x;
                    if k < old(v)@.len() {
                        assert(old(v)@[k] == x);
                    }
                }
                if old(v)@.contains(x) {
                    let k = choose|k: int| 0 <= k < old(v)@.len() && old(v)@[k] == x;
                    assert(v@[k] == x);
                }
                if x == m {
                    assert(v@[v@.len() - 1] == x);
                }
            }
        }
    }
}

impl Square {
    /// Whether the square lies on the board.
    pub fn is_on_board(&self) -> (r: bool)
        ensures
            r == self.wf(),
    {
        'a' <= self.pos.0 && self.pos.0 <= 'h' && '1' <= self.pos.1 && self.pos.1 <= '8'
    }
}

impl Game {
    /// The game's invariant: its board is well formed.
    pub open spec fn wf(&self) -> bool {
        self.board.wf()
    }

    /// Whether the piece is on the board.
    fn on_board_now(&self, p: Piece) -> (r: bool)
        requires
            self.wf(),
        ensures
            r == self.board.pieces@.contains(p),
    {
        proof {
            lemma_contains_occupant(self.board.pieces@, p);
        }
        if !p.square.is_on_board() {
            return false;
        }
        match self.board.check_square_for_piece(&p.square) {
            Some(q) => *q == p,
            None => false,
        }
    }

    /// Whether the square with indices `(f, r)` is empty.
    fn empty_at(&self, f: i8, r: i8) -> (e: bool)
        requires
            self.wf(),
            on_board(f as int, r as int),
        ensures
            e == !occupied(self.board.pieces@, f as int, r as int),
    {
        let sq = Square::from_coords(f, r);
        self.board.check_square_for_piece(&sq).is_none()
    }

    /// The castling move of `pair` for color `color`, if it is available.
    fn castle_for(&self, color: Color, pair: CastlingPair) -> (r: Option<Move>)
        requires
            self.wf(),
        ensures
            forall|m: Move| castle_by(*self, color, pair, m) <==> r == Some(m),
            r matches Some(m) ==> m.wf(),
    {
        let (k, rook) = pair;
        let b: i8 = match color {
            Color::White => 0,
            Color::Black => 7,
        };
        if !(k.color == color && k.figure == Figure::King && rook.color == color && rook.figure
            == Figure::Rook) {
            return None;
        }
        if !(self.on_board_now(k) && self.on_board_now(rook)) {
            return None;
        }
        if !(k.square.file() == 4 && k.square.rank() == b && rook.square.rank() == b && (
        rook.square.file() == 7 || rook.square.file() == 0)) {
            return None;
        }
        let kingside = rook.square.file() == 7;
        let clear = if kingside {
            self.empty_at(5, b) && self.empty_at(6, b)
        } else {
            self.empty_at(1, b) && self.empty_at(2, b) && self.empty_at(3, b)
        };
        if !clear {
            return None;
        }
        if self.board.king_in_check(color) {
            return None;
        }
        let crossed: usize = if kingside {
            5
        } else {
            3
        };
        let dest: usize = if kingside {
            6
        } else {
            2
        };
        let mut trial = self.board.copy_board();
        trial.play(Move { piece: k, target_square: self.board.squares[b as usize][crossed] });
        if trial.king_in_check(color) {
            return None;
        }
        Some(Move { piece: k, target_square: self.board.squares[b as usize][dest] })
    }

    /// Adds the en passant captures of `entry` for color `color` to `res`.
    fn en_passant_for(&self, color: Color, entry: EnPassantEntry, res: &mut Vec<Move>)
        requires
            self.wf(),
            old(res)@.no_duplicates(),
        ensures
            final(res)@.no_duplicates(),
            forall|m: Move|
                #[trigger] final(res)@.contains(m) <==> old(res)@.contains(m) || en_passant_by(
                    *self,
                    color,
                    entry,
                    m,
                ),
            forall|m: Move| final(res)@.contains(m) && !old(res)@.contains(m) ==> m.wf(),
    {
        let (q, s) = entry;
        let ghost ps = self.board.pieces@;
        if q.color == color || !self.on_board_now(q) || !s.is_on_board() {
            return;
        }
        if self.board.check_square_for_piece(&s).is_some() {
            return;
        }
        let back: i8 = match color {
            Color::White => -1,
            Color::Black => 1,
        };
        let ghost before = res@;
        let ghost mut left_sq = s;
        let ghost mut right_sq = s;
        match s.move_by((-1, back)) {
            Some(from) => {
                proof {
                    left_sq = from;
                }
                match self.board.check_square_for_piece(&from) {
                    Some(p) => {
                        let p = *p;
                        if p.color == color && p.figure == Figure::Pawn && q.square.file() == s.file()
                            && q.square.rank() == from.rank() {
                            proof {
                                lemma_contains_occupant(ps, p);
                            }
                            insert_move(res, Move { piece: p, target_square: s });
                        }
                    },
                    None => {},
                }
            },
            None => {},
        }
        match s.move_by((1, back)) {
            Some(from) => {
                proof {
                    right_sq = from;
                }
                match self.board.check_square_for_piece(&from) {
                    Some(p) => {
                        let p = *p;
                        if p.color == color && p.figure == Figure::Pawn && q.square.file() == s.file()
                            && q.square.rank() == from.rank() {
                            proof {
                                lemma_contains_occupant(ps, p);
                            }
                            insert_move(res, Move { piece: p, target_square: s });
                        }
                    },
                    None => {},
                }
            },
            None => {},
        }
        proof {
            assert forall|m: Move|
                #[trigger] res@.contains(m) <==> before.contains(m) || en_passant_by(
                    *self,
                    color,
                    entry,
                    m,
                ) by {
                if en_passant_by(*self, color, entry, m) {
                    lemma_contains_occupant(ps, m.piece);
                    if file_idx(s) == file_idx(m.piece.square) + 1 {
                        crate::pieces::lemma_square_eq(m.piece.square, left_sq);
                    } else {
                        crate::pieces::lemma_square_eq(m.piece.square, right_sq);
                    }
                }
            }
        }
    }
}

impl Game {
    /// Adds the ordinary moves of `p`, a piece of the board, to `res`.
    fn piece_moves_into(&self, p: Piece, res: &mut Vec<Move>)
        requires
            self.wf(),
            self.board.pieces@.contains(p),
            old(res)@.no_duplicates(),
        ensures
            final(res)@.no_duplicates(),
            forall|m: Move|
                #[trigger] final(res)@.contains(m) <==> old(res)@.contains(m) || (m.piece == p
                    && candidate(self.board.pieces@, p, m.target_square)),
            forall|m: Move| final(res)@.contains(m) && !old(res)@.contains(m) ==> m.wf(),
    {
        let ghost ps = self.board.pieces@;
        proof {
            let i = choose|i: int| 0 <= i < ps.len() && ps[i] == p;
            assert(ps[i].square.wf());
        }
        let sqs = p.get_available_squares(&self.board);
        let mut j: usize = 0;
        while j < sqs.len()
            invariant
                j <= sqs@.len(),
                self.wf(),
                p.square.wf(),
                res@.no_duplicates(),
                forall|t: Square| #[trigger] sqs@.contains(t) <==> candidate(ps, p, t),
                ps == self.board.pieces@,
                forall|m: Move|
                    #[trigger] res@.contains(m) <==> old(res)@.contains(m) || (m.piece == p
                        && sqs@.subrange(0, j as int).contains(m.target_square)),
                forall|m: Move| res@.contains(m) && !old(res)@.contains(m) ==> m.wf(),
            decreases sqs@.len() - j,
        {
            proof {
                lemma_prefix_contains(sqs@, j as int);
                assert(sqs@.contains(sqs@[j as int]));
            }
            insert_move(res, Move { piece: p, target_square: sqs[j] });
            j += 1;
        }
        proof {
            assert(sqs@.subrange(0, sqs@.len() as int) == sqs@);
        }
    }

    /// The moves of color `color` before the king-safety filter.
    fn candidate_moves(&self, color: Color) -> (res: Vec<Move>)
        requires
            self.wf(),
        ensures
            res@.no_duplicates(),
            forall|m: Move| #[trigger] res@.contains(m) <==> candidate_move(*self, color, m),
            forall|m: Move| res@.contains(m) ==> m.wf(),
    {
        let ghost ps = self.board.pieces@;
        let mut res: Vec<Move> = Vec::new();
        let mut i: usize = 0;
        while i < self.board.pieces.len()
            invariant
                i <= ps.len(),
                self.wf(),
                ps == self.board.pieces@,
                res@.no_duplicates(),
                forall|m: Move|
                    #[trigger] res@.contains(m) <==> ps.subrange(0, i as int).contains(m.piece)
                        && piece_move(ps, color, m),
                forall|m: Move| res@.contains(m) ==> m.wf(),
            decreases ps.len() - i,
        {
            let p = self.board.pieces[i];
            proof {
                lemma_prefix_contains(ps, i as int);
                assert(ps.contains(ps[i as int]));
            }
            if p.color == color {
                self.piece_moves_into(p, &mut res);
            }
            i += 1;
        }
        proof {
            assert(ps.subrange(0, ps.len() as int) == ps);
        }
        let ghost phase1 = res@;
        let rights = &self.state.castling_privileges;
        let mut i: usize = 0;
        while i < rights.len()
            invariant
                i <= rights@.len(),
                self.wf(),
                ps == self.board.pieces@,
                rights@ == self.state.castling_privileges@,
                res@.no_duplicates(),
                forall|m: Move|
                    #[trigger] res@.contains(m) <==> phase1.contains(m) || exists|k: int|
                        0 <= k < i && castle_by(*self, color, #[trigger] rights@[k], m),
                forall|m: Move| res@.contains(m) ==> m.wf(),
            decreases rights@.len() - i,
        {
            let ghost before = res@;
            match self.castle_for(color, rights[i]) {
                Some(m) => {
                    insert_move(&mut res, m);
                },
                None => {},
            }
            proof {
                assert forall|m: Move|
                    #[trigger] res@.contains(m) <==> phase1.contains(m) || exists|k: int|
                        0 <= k < i + 1 && castle_by(*self, color, #[trigger] rights@[k], m) by {
                    if castle_by(*self, color, rights@[i as int], m) {
                        assert(res@.contains(m));
                    }
                    if exists|k: int| 0 <= k < i + 1 && castle_by(*self, color, #[trigger] rights@[k], m) {
                        let k = choose|k: int| 0 <= k < i + 1 && castle_by(*self, color, #[trigger] rights@[k], m);
                        if k < i {
                            assert(before.contains(m));
                        }
                    }
                }
            }
            i += 1;
        }
        let ghost phase2 = res@;
        let entries = &self.state.possible_en_passant_moves;
        let mut i: usize = 0;
        while i < entries.len()
            invariant
                i <= entries@.len(),
                self.wf(),
                ps == self.board.pieces@,
                entries@ == self.state.possible_en_passant_moves@,
                res@.no_duplicates(),
                forall|m: Move|
                    #[trigger] res@.contains(m) <==> phase2.contains(m) || exists|k: int|
                        0 <= k < i && en_passant_by(*self, color, #[trigger] entries@[k], m),
                forall|m: Move| res@.contains(m) ==> m.wf(),
            decreases entries@.len() - i,
        {
            let ghost before = res@;
            self.en_passant_for(color, entries[i], &mut res);
            proof {
                assert forall|m: Move|
                    #[trigger] res@.contains(m) <==> phase2.contains(m) || exists|k: int|
                        0 <= k < i + 1 && en_passant_by(*self, color, #[trigger] entries@[k], m) by {
                    if exists|k: int| 0 <= k < i + 1 && en_passant_by(*self, color, #[trigger] entries@[k], m) {
                        let k = choose|k: int| 0 <= k < i + 1 && en_passant_by(*self, color, #[trigger] entries@[k], m);
                        if k < i {
                            assert(before.contains(m));
                        }
                    }
                }
            }
            i += 1;
        }
        proof {
            assert forall|m: Move| #[trigger] res@.contains(m) <==> candidate_move(*self, color, m) by {
                if piece_move(ps, color, m) {
                    assert(ps.subrange(0, ps.len() as int).contains(m.piece));
                }
            }
        }
        res
    }

    /// Whether no king of color `color` is attacked after `m`.
    fn king_safe_after(&self, m: Move, color: Color) -> (r: bool)
        requires
            self.wf(),
            m.wf(),
        ensures
            r == !in_check_on(apply_pieces(self.board.squares, self.board.pieces@, m), color),
    {
        let mut trial = self.board.copy_board();
        trial.play(m);
        !trial.king_in_check(color)
    }

    /// The legal moves of color `color`: its candidate moves, castling and en
    /// passant captures that do not leave one of its kings attacked.
    pub fn get_moves(&self, color: Color) -> (res: Vec<Move>)
        requires
            self.wf(),
        ensures
            res@.no_duplicates(),
            forall|m: Move| #[trigger] res@.contains(m) <==> legal_move(*self, color, m),
    {
        let cands = self.candidate_moves(color);
        let mut res: Vec<Move> = Vec::new();
        let mut i: usize = 0;
        while i < cands.len()
            invariant
                i <= cands@.len(),
                self.wf(),
                cands@.no_duplicates(),
                forall|m: Move| #[trigger] cands@.contains(m) <==> candidate_move(*self, color, m),
                forall|m: Move| cands@.contains(m) ==> m.wf(),
                res@.no_duplicates(),
                forall|m: Move|
                    #[trigger] res@.contains(m) <==> cands@.subrange(0, i as int).contains(m)
                        && legal_move(*self, color, m),
            decreases cands@.len() - i,
        {
            let m = cands[i];
            proof {
                lemma_prefix_contains(cands@, i as int);
                assert(cands@.contains(m));
            }
            if self.king_safe_after(m, color) {
                insert_move(&mut res, m);
            }
            i += 1;
        }
        proof {
            assert(cands@.subrange(0, cands@.len() as int) == cands@);
        }
        res
    }
}

/// The move touches the king or rook of `pair`: one of them moves, or is taken.
pub open spec fn touches(pair: CastlingPair, m: Move) -> bool {
    pair.0 == m.piece || pair.1 == m.piece || pair.0.square == m.target_square || pair.1.square
        == m.target_square
}

/// The castling rights left after `m`, in their order.
pub open spec fn rights_after(rs: Seq<CastlingPair>, m: Move) -> Seq<CastlingPair>
    decreases rs.len(),
{
    if rs.len() == 0 {
        rs
    } else {
        let rest = rights_after(rs.drop_last(), m);
        if touches(rs.last(), m) {
            rest
        } else {
            rest.push(rs.last())
        }
    }
}

/// A pawn advancing two squares along its file.
pub open spec fn double_step(m: Move) -> bool {
    m.piece.figure == Figure::Pawn && file_idx(m.target_square) == file_idx(m.piece.square) && (
    rank_idx(m.target_square) - rank_idx(m.piece.square) == 2 || rank_idx(m.piece.square)
        - rank_idx(m.target_square) == 2)
}

/// The en passant entries after `m`: the pawn of a two-square advance and the
/// square it passed over; nothing after any other move.
pub open spec fn en_passant_after(grid: [[Square; 8]; 8], m: Move) -> Seq<EnPassantEntry> {
    let sr = rank_idx(m.piece.square);
    let tr = rank_idx(m.target_square);
    let mid = if tr > sr {
        sr + 1
    } else {
        sr - 1
    };
    if double_step(m) {
        seq![(moved_piece(m), grid[mid][file_idx(m.piece.square)])]
    } else {
        seq![]
    }
}

/// `new` is `old` after `m` was played: the placement of `apply_pieces`, the
/// turn passed on, the check flag of the side now to move, the castling rights
/// of `rights_after`, the en passant entries of `en_passant_after`, and `m`
/// appended to the history.
pub open spec fn played(old: Game, new: Game, m: Move) -> bool {
    &&& new.board.squares == old.board.squares
    &&& new.board.is_valid == old.board.is_valid
    &&& new.board.pieces@ == apply_pieces(old.board.squares, old.board.pieces@, m)
    &&& new.state.turn == opponent(old.state.turn)
    &&& new.state.check == in_check_on(new.board.pieces@, new.state.turn)
    &&& new.state.castling_privileges@ == rights_after(old.state.castling_privileges@, m)
    &&& new.state.possible_en_passant_moves@ == en_passant_after(old.board.squares, m)
    &&& new.moves@ == old.moves@.push(m)
    &&& new.meta == old.meta
}

/// The side to move has no legal move.
pub open spec fn no_legal_move(g: Game) -> bool {
    forall|m: Move| !legal_move(g, g.state.turn, m)
}

/// The side that wins when `loser` is mated.
pub open spec fn win_against(loser: Color) -> GameResult {
    match loser {
        Color::White => GameResult::BlackWin,
        Color::Black => GameResult::WhiteWin,
    }
}

/// The result of a game after a move: mate or stalemate when the side to move
/// has no legal move, none otherwise.
pub open spec fn outcome(g: Game) -> Option<GameResult> {
    if no_legal_move(g) {
        if g.state.check {
            Some(win_against(g.state.turn))
        } else {
            Some(GameResult::Draw)
        }
    } else {
        None
    }
}

/// What `make_move` does with `m` on `old`: a game with a result refuses any
/// move; an illegal move is refused; a legal one is played and the result
/// recorded.
pub open spec fn make_move_post(old: Game, new: Game, m: Move, r: Result<(), ChessError>) -> bool {
    if old.state.result is Some {
        r == Err::<(), ChessError>(ChessError::GameOver) && new == old
    } else if !legal_move(old, old.state.turn, m) {
        r == Err::<(), ChessError>(ChessError::IllegalMove) && new == old
    } else {
        r is Ok && played(old, new, m) && new.state.result == outcome(new)
    }
}

/// Figure on file `f` of a first rank at the start.
pub open spec fn start_figure(f: int) -> Figure {
    if f == 0 || f == 7 {
        Figure::Rook
    } else if f == 1 || f == 6 {
        Figure::Knight
    } else if f == 2 || f == 5 {
        Figure::Bishop
    } else if f == 3 {
        Figure::Queen
    } else {
        Figure::King
    }
}

/// Color and figure on `(f, r)` at the start of a game.
pub open spec fn start_content(f: int, r: int) -> Option<(Color, Figure)> {
    if r == 0 {
        Some((Color::White, start_figure(f)))
    } else if r == 1 {
        Some((Color::White, Figure::Pawn))
    } else if r == 6 {
        Some((Color::Black, Figure::Pawn))
    } else if r == 7 {
        Some((Color::Black, start_figure(f)))
    } else {
        None
    }
}

/// Color and figure on `(f, r)`.
pub open spec fn content(ps: Seq<Piece>, f: int, r: int) -> Option<(Color, Figure)> {
    match occupant(ps, f, r) {
        Some(p) => Some((p.color, p.figure)),
        None => None,
    }
}

/// A king and a rook of the same color, both on the board.
pub open spec fn initial_pair(ps: Seq<Piece>, pr: CastlingPair) -> bool {
    ps.contains(pr.0) && pr.0.figure == Figure::King && ps.contains(pr.1) && pr.1.figure
        == Figure::Rook && pr.0.color == pr.1.color
}

/// The move that text `s` names on `g`: the piece on its first square going to
/// its second.
pub open spec fn text_move(g: Game, s: Seq<char>) -> Move {
    Move {
        piece: occupant(g.board.pieces@, file_of_char(s[0]), rank_of_char(s[1]))->0,
        target_square: g.board.squares[rank_of_char(s[4])][file_of_char(s[3])],
    }
}

/// Move text: two squares joined by '-', such as "e2-e4".
pub open spec fn is_move_text(s: Seq<char>) -> bool {
    s.len() == 5 && s[2] == '-' && is_square_text(s.subrange(0, 2)) && is_square_text(
        s.subrange(3, 5),
    )
}

/// The square named by two characters, if they name one.
fn square_of_chars(fc: char, rc: char) -> (r: Option<Square>)
    ensures
        r is Some <==> file_of_char(fc) >= 0 && rank_of_char(rc) >= 0,
        r matches Some(sq) ==> sq.wf() && at(sq, file_of_char(fc), rank_of_char(rc)),
{
    let f: i8 = if 'a' <= fc && fc <= 'h' {
        (fc as u32 - 97) as i8
    } else if 'A' <= fc && fc <= 'H' {
        (fc as u32 - 65) as i8
    } else {
        return None;
    };
    if !('1' <= rc && rc <= '8') {
        return None;
    }
    Some(Square::from_coords(f, (rc as u32 - 49) as i8))
}

/// The castling rights that `m` does not touch.
fn keep_rights(rs: &Vec<CastlingPair>, m: Move) -> (r: Vec<CastlingPair>)
    ensures
        r@ == rights_after(rs@, m),
{
    let mut r: Vec<CastlingPair> = Vec::new();
    let mut i: usize = 0;
    while i < rs.len()
        invariant
            i <= rs@.len(),
            r@ == rights_after(rs@.subrange(0, i as int), m),
        decreases rs@.len() - i,
    {
        let pair = rs[i];
        assert(rs@.subrange(0, i as int + 1).drop_last() == rs@.subrange(0, i as int));
        if !(pair.0 == m.piece || pair.1 == m.piece || pair.0.square == m.target_square
            || pair.1.square == m.target_square) {
            r.push(pair);
        }
        i += 1;
    }
    assert(rs@.subrange(0, rs@.len() as int) == rs@);
    r
}

impl Board {
    /// The standard starting position.
    pub fn new_in_standard_position() -> (b: Board)
        ensures
            b.wf(),
            forall|f: int, r: int| on_board(f, r) ==> #[trigger] content(b.pieces@, f, r) == start_content(f, r),
    {
        let mut b = Board::new();
        let mut f: i8 = 0;
        while f < 8
            invariant
                0 <= f <= 8,
                b.wf(),
                forall|g: int, r: int|
                    on_board(g, r) ==> #[trigger] content(b.pieces@, g, r) == if g < f {
                        start_content(g, r)
                    } else {
                        None
                    },
            decreases 8 - f,
        {
            let fig = if f == 0 || f == 7 {
                Figure::Rook
            } else if f == 1 || f == 6 {
                Figure::Knight
            } else if f == 2 || f == 5 {
                Figure::Bishop
            } else if f == 3 {
                Figure::Queen
            } else {
                Figure::King
            };
            let ghost s0 = b.pieces@;
            assert(content(s0, f as int, 0) is None);
            assert(content(s0, f as int, 1) is None);
            assert(content(s0, f as int, 6) is None);
            assert(content(s0, f as int, 7) is None);
            b.add_piece(Piece { color: Color::White, figure: fig, square: Square::from_coords(f, 0) });
            let ghost s1 = b.pieces@;
            assert(occupant(s1, f as int, 1) == occupant(s0, f as int, 1));
            b.add_piece(Piece { color: Color::White, figure: Figure::Pawn, square: Square::from_coords(f, 1) });
            let ghost s2 = b.pieces@;
            assert(occupant(s2, f as int, 6) == occupant(s0, f as int, 6));
            b.add_piece(Piece { color: Color::Black, figure: Figure::Pawn, square: Square::from_coords(f, 6) });
            let ghost s3 = b.pieces@;
            assert(occupant(s3, f as int, 7) == occupant(s0, f as int, 7));
            b.add_piece(Piece { color: Color::Black, figure: fig, square: Square::from_coords(f, 7) });
            let ghost s4 = b.pieces@;
            proof {
                assert forall|g: int, r: int|
                    on_board(g, r) implies #[trigger] content(s4, g, r) == if g < f + 1 {
                        start_content(g, r)
                    } else {
                        None
                    } by {
                    assert(occupant(s4, g, r) == if g == f && r == 7 { occupant(s4, g, r) } else { occupant(s3, g, r) });
                    assert(occupant(s3, g, r) == if g == f && r == 6 { occupant(s3, g, r) } else { occupant(s2, g, r) });
                    assert(occupant(s2, g, r) == if g == f && r == 1 { occupant(s2, g, r) } else { occupant(s1, g, r) });
                    assert(occupant(s1, g, r) == if g == f && r == 0 { occupant(s1, g, r) } else { occupant(s0, g, r) });
                    assert(content(s0, g, r) == if g < f { start_content(g, r) } else { None });
                }
            }
            f += 1;
        }
        b
    }
}

impl State {
    /// White to move, no result, no check, no en passant entry, and a castling
    /// right for each king and rook of the same color on `board`.
    pub fn new(board: &Board) -> (s: State)
        requires
            board.wf(),
        ensures
            s.turn == Color::White,
            s.result is None,
            !s.check,
            s.possible_en_passant_moves@.len() == 0,
            forall|pr: CastlingPair|
                #[trigger] s.castling_privileges@.contains(pr) <==> initial_pair(board.pieces@, pr),
    {
        let ghost ps = board.pieces@;
        let mut rights: Vec<CastlingPair> = Vec::new();
        let mut i: usize = 0;
        while i < board.pieces.len()
            invariant
                i <= ps.len(),
                ps == board.pieces@,
                forall|pr: CastlingPair|
                    #[trigger] rights@.contains(pr) <==> initial_pair(ps, pr) && ps.subrange(
                        0,
                        i as int,
                    ).contains(pr.1),
            decreases ps.len() - i,
        {
            let rook = board.pieces[i];
            proof {
                lemma_prefix_contains(ps, i as int);
                assert(ps.contains(rook));
            }
            if rook.figure == Figure::Rook {
                let ghost outer = rights@;
                let mut j: usize = 0;
                while j < board.pieces.len()
                    invariant
                        j <= ps.len(),
                        i < ps.len(),
                        rook == ps[i as int],
                        rook.figure == Figure::Rook,
                        ps == board.pieces@,
                        ps.contains(rook),
                        forall|pr: CastlingPair|
                            #[trigger] rights@.contains(pr) <==> outer.contains(pr) || (pr.1 == rook
                                && initial_pair(ps, pr) && ps.subrange(0, j as int).contains(pr.0)),
                    decreases ps.len() - j,
                {
                    let king = board.pieces[j];
                    proof {
                        lemma_prefix_contains(ps, j as int);
                        assert(ps.contains(king));
                    }
                    if king.figure == Figure::King && king.color == rook.color {
                        let ghost before = rights@;
                        rights.push((king, rook));
                        proof {
                            assert forall|pr: CastlingPair| #[trigger] rights@.contains(pr) <==> before.contains(pr) || pr == (king, rook) by {
                                if rights@.contains(pr) {
                                    let k = choose|k: int| 0 <= k < rights@.len() && rights@[k] == pr;
                                    if k < before.len() {
                                        assert(before[k] == pr);
                                    }
                                }
                                if before.contains(pr) {
                                    let k = choose|k: int| 0 <= k < before.len() && before[k] == pr;
                                    assert(rights@[k] == pr);
                                }
                                if pr == (king, rook) {
                                    assert(rights@[rights@.len() - 1] == pr);
                                }
                            }
                        }
                    }
                    j += 1;
                }
                proof {
                    assert(ps.subrange(0, ps.len() as int) == ps);
                }
            }
            i += 1;
        }
        proof {
            assert(ps.subrange(0, ps.len() as int) == ps);
        }
        State {
            turn: Color::White,
            result: None,
            check: false,
            castling_privileges: rights,
            possible_en_passant_moves: Vec::new(),
        }
    }
}

impl GameMeta {
    pub fn new() -> (m: GameMeta)
        ensures
            m == (GameMeta {}),
    {
        GameMeta {}
    }
}

/// The en passant entries after `m`.
fn en_passant_entries(board: &Board, m: Move) -> (r: Vec<EnPassantEntry>)
    requires
        grid_wf(board.squares),
        m.wf(),
    ensures
        r@ == en_passant_after(board.squares, m),
{
    let sr = m.piece.square.rank();
    let tr = m.target_square.rank();
    if m.piece.figure == Figure::Pawn && m.target_square.file() == m.piece.square.file() && (tr
        - sr == 2 || sr - tr == 2) {
        let mid: i8 = if tr > sr {
            sr + 1
        } else {
            sr - 1
        };
        let last: i8 = match m.piece.color {
            Color::White => 7,
            Color::Black => 0,
        };
        let figure = if tr == last {
            Figure::Queen
        } else {
            Figure::Pawn
        };
        let pawn = Piece { color: m.piece.color, figure, square: m.target_square };
        let passed = board.squares[mid as usize][m.piece.square.file() as usize];
        let r = vec![(pawn, passed)];
        assert(r@ =~= seq![(pawn, passed)]);
        r
    } else {
        Vec::new()
    }
}

impl Game {
    /// A game in the standard starting position, White to move, with every
    /// castling right and no en passant entry.
    pub fn new() -> (g: Game)
        ensures
            g.wf(),
            forall|f: int, r: int|
                on_board(f, r) ==> #[trigger] content(g.board.pieces@, f, r) == start_content(f, r),
            g.state.turn == Color::White,
            g.state.result is None,
            !g.state.check,
            g.state.possible_en_passant_moves@.len() == 0,
            forall|pr: CastlingPair|
                #[trigger] g.state.castling_privileges@.contains(pr) <==> initial_pair(
                    g.board.pieces@,
                    pr,
                ),
            g.moves@.len() == 0,
            g.meta == Some(GameMeta {}),
    {
        let board = Board::new_in_standard_position();
        let state = State::new(&board);
        let meta = GameMeta::new();
        let moves: Vec<Move> = Vec::new();
        Game { board, state, meta: Some(meta), moves }
    }

    /// Plays `m` with no check of legality and leaves the result as it is.
    fn play(&mut self, m: Move)
        requires
            old(self).wf(),
            m.wf(),
        ensures
            final(self).wf(),
            played(*old(self), *final(self), m),
            final(self).state.result == old(self).state.result,
    {
        let rights = keep_rights(&self.state.castling_privileges, m);
        let entries = en_passant_entries(&self.board, m);
        self.board.play(m);
        self.state.turn = self.next_color();
        self.state.castling_privileges = rights;
        self.state.possible_en_passant_moves = entries;
        self.state.check = self.board.king_in_check(self.state.turn);
        self.moves.push(m);
    }

    /// A copy of the game with `move_` played (with no check of legality);
    /// the game itself is left as it is.
    pub fn simulate_move(&self, move_: Move) -> (g: Game)
        requires
            self.wf(),
            move_.wf(),
        ensures
            g.wf(),
            played(*self, g, move_),
            g.state.result == self.state.result,
    {
        let state = State {
            turn: self.state.turn,
            result: self.state.result,
            check: self.state.check,
            castling_privileges: copy_vec(&self.state.castling_privileges),
            possible_en_passant_moves: copy_vec(&self.state.possible_en_passant_moves),
        };
        let mut res = Game {
            meta: self.meta,
            board: self.board.copy_board(),
            state,
            moves: copy_vec(&self.moves),
        };
        res.play(move_);
        res
    }

    /// Plays `move_` if the game has no result and the move is legal for the
    /// side to move, then records mate or stalemate; fails with `GameOver` or
    /// `IllegalMove` otherwise, leaving the game as it was.
    pub fn make_move(&mut self, move_: Move) -> (r: Result<(), ChessError>)
        requires
            old(self).wf(),
        ensures
            final(self).wf(),
            make_move_post(*old(self), *final(self), move_, r),
    {
        if self.state.result.is_some() {
            return Err(ChessError::GameOver);
        }
        let legal = self.get_moves(self.state.turn);
        if !contains_move(&legal, move_) {
            return Err(ChessError::IllegalMove);
        }
        self.play(move_);
        let replies = self.get_moves(self.state.turn);
        if replies.len() == 0 {
            self.state.result = Some(
                if self.state.check {
                    match self.state.turn {
                        Color::White => GameResult::BlackWin,
                        Color::Black => GameResult::WhiteWin,
                    }
                } else {
                    GameResult::Draw
                },
            );
            proof {
                assert forall|m: Move| !legal_move(*self, self.state.turn, m) by {
                    if legal_move(*self, self.state.turn, m) {
                        assert(replies@.contains(m));
                    }
                }
            }
        } else {
            proof {
                assert(replies@.contains(replies@[0]));
            }
        }
        Ok(())
    }

    /// The move that text such as "e2-e4" names: the piece on the first
    /// square going to the second.
    pub fn generate_move_from_str(&self, input: &str) -> (r: Result<Move, ChessError>)
        requires
            self.wf(),
        ensures
            match r {
                Ok(m) => is_move_text(input@) && occupied(
                    self.board.pieces@,
                    file_of_char(input@[0]),
                    rank_of_char(input@[1]),
                ) && m == text_move(*self, input@) && m.wf(),
                Err(e) => e == ChessError::InvalidNotation && !(is_move_text(input@) && occupied(
                    self.board.pieces@,
                    file_of_char(input@[0]),
                    rank_of_char(input@[1]),
                )),
            },
    {
        if input.unicode_len() != 5 {
            return Err(ChessError::InvalidNotation);
        }
        let from = square_of_chars(input.get_char(0), input.get_char(1));
        let to = square_of_chars(input.get_char(3), input.get_char(4));
        proof {
            assert(input@.subrange(0, 2)[0] == input@[0]);
            assert(input@.subrange(0, 2)[1] == input@[1]);
            assert(input@.subrange(3, 5)[0] == input@[3]);
            assert(input@.subrange(3, 5)[1] == input@[4]);
        }
        if input.get_char(2) != '-' || from.is_none() || to.is_none() {
            return Err(ChessError::InvalidNotation);
        }
        let from = from.unwrap();
        let to = to.unwrap();
        match self.board.check_square_for_piece(&from) {
            Some(p) => {
                let target = self.board.squares[to.rank() as usize][to.file() as usize];
                Ok(Move { piece: *p, target_square: target })
            },
            None => Err(ChessError::InvalidNotation),
        }
    }

    /// Reads a move as `generate_move_from_str` does and plays it as
    /// `make_move` does.
    pub fn move_from_str(&mut self, input: &str) -> (r: Result<(), ChessError>)
        requires
            old(self).wf(),
        ensures
            final(self).wf(),
            if is_move_text(input@) && occupied(
                old(self).board.pieces@,
                file_of_char(input@[0]),
                rank_of_char(input@[1]),
            ) {
                make_move_post(*old(self), *final(self), text_move(*old(self), input@), r)
            } else {
                r == Err::<(), ChessError>(ChessError::InvalidNotation) && *final(self) == *old(self)
            },
    {
        match self.generate_move_from_str(input) {
            Ok(m) => self.make_move(m),
            Err(e) => Err(e),
        }
    }

    /// Whether the side to move is in check.
    pub fn in_check(&self) -> (r: bool)
        requires
            self.wf(),
        ensures
            r == in_check_on(self.board.pieces@, self.state.turn),
    {
        self.in_check_color(self.state.turn)
    }

    /// Whether a king of color `color` is attacked.
    pub fn in_check_color(&self, color: Color) -> (r: bool)
        requires
            self.wf(),
        ensures
            r == in_check_on(self.board.pieces@, color),
    {
        self.board.king_in_check(color)
    }

    /// The side to move is in check and has no legal move.
    pub fn in_checkmate(&self) -> (r: bool)
        requires
            self.wf(),
        ensures
            r == (in_check_on(self.board.pieces@, self.state.turn) && no_legal_move(*self)),
    {
        self.in_check() && !self.has_legal_move()
    }

    /// The side to move is not in check and has no legal move.
    pub fn in_stale_mate(&self) -> (r: bool)
        requires
            self.wf(),
        ensures
            r == (!in_check_on(self.board.pieces@, self.state.turn) && no_legal_move(*self)),
    {
        !self.in_check() && !self.has_legal_move()
    }

    /// Whether the side to move has a legal move.
    fn has_legal_move(&self) -> (r: bool)
        requires
            self.wf(),
        ensures
            r == !no_legal_move(*self),
    {
        let moves = self.get_moves(self.state.turn);
        proof {
            if moves@.len() > 0 {
                assert(moves@.contains(moves@[0]));
            } else {
                assert forall|m: Move| !legal_move(*self, self.state.turn, m) by {
                    if legal_move(*self, self.state.turn, m) {
                        assert(moves@.contains(m));
                    }
                }
            }
        }
        moves.len() > 0
    }

    /// The side to move.
    pub fn current_color(&self) -> (c: Color)
        ensures
            c == self.state.turn,
    {
        self.state.turn
    }

    /// The side that moves after the current one.
    fn next_color(&self) -> (c: Color)
        ensures
            c == opponent(self.state.turn),
    {
        match self.state.turn {
            Color::White => Color::Black,
            Color::Black => Color::White,
        }
    }
}

/// No legal move of color `c` goes to a square holding a piece of color `c`.
pub proof fn lemma_legal_target_not_own(g: Game, c: Color, m: Move)
    requires
        g.wf(),
        legal_move(g, c, m),
    ensures
        !holds_color(g.board.pieces@, c, file_idx(m.target_square), rank_idx(m.target_square)),
{
    let ps = g.board.pieces@;
    if piece_move(ps, c, m) {
        crate::pieces::lemma_candidate_not_own(ps, m.piece, m.target_square);
    } else if exists|i: int|
        0 <= i < g.state.castling_privileges@.len() && castle_by(
            g,
            c,
            #[trigger] g.state.castling_privileges@[i],
            m,
        ) {
        let i = choose|i: int|
            0 <= i < g.state.castling_privileges@.len() && castle_by(
                g,
                c,
                #[trigger] g.state.castling_privileges@[i],
                m,
            );
        let b = back_rank(c);
        assert(at(g.board.squares[b][6], 6, b));
        assert(at(g.board.squares[b][2], 2, b));
    }
}

/// After a legal move of the side to move, none of its kings is attacked.
pub proof fn lemma_legal_move_leaves_king_safe(g: Game, m: Move, after: Game)
    requires
        g.wf(),
        legal_move(g, g.state.turn, m),
        played(g, after, m),
    ensures
        !in_check_on(after.board.pieces@, g.state.turn),
{
}

/// En passant eligibility lasts one ply: after a pawn's two-square advance
/// the entries are exactly that pawn and the square it passed over; after any
/// other move there are none.
pub proof fn lemma_en_passant_one_ply(g: Game, m: Move, after: Game)
    requires
        played(g, after, m),
    ensures
        double_step(m) ==> after.state.possible_en_passant_moves@ == seq![
            (
                moved_piece(m),
                g.board.squares[if rank_idx(m.target_square) > rank_idx(m.piece.square) {
                    rank_idx(m.piece.square) + 1
                } else {
                    rank_idx(m.piece.square) - 1
                }][file_idx(m.piece.square)],
            ),
        ],
        !double_step(m) ==> after.state.possible_en_passant_moves@.len() == 0,
{
}

} // verus!

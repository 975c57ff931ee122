//! Position text formats: FEN piece placement, and letters and symbols of pieces.
use vstd::prelude::*;

use crate::board::{occupant, occupied, on_board, Board, Color, Figure, Piece, Square};
use crate::error::ChessError;
use crate::game::Move;
use crate::pieces::fen_letter;

verus! {

/// The kinds of token in move text.
pub enum Token {
    Piece,
    Square,
    Takes,
    Castles,
    CastlesSide,
    EnPassant,
}

/// A piece letter of FEN, in either case.
pub open spec fn is_piece_letter(c: char) -> bool {
    c == 'p' || c == 'r' || c == 'n' || c == 'b' || c == 'q' || c == 'k' || c == 'P' || c == 'R'
        || c == 'N' || c == 'B' || c == 'Q' || c == 'K'
}

/// The figure of a piece letter.
pub open spec fn letter_figure(c: char) -> Figure {
    if c == 'p' || c == 'P' {
        Figure::Pawn
    } else if c == 'r' || c == 'R' {
        Figure::Rook
    } else if c == 'n' || c == 'N' {
        Figure::Knight
    } else if c == 'b' || c == 'B' {
        Figure::Bishop
    } else if c == 'q' || c == 'Q' {
        Figure::Queen
    } else {
        Figure::King
    }
}

/// The color of a piece letter: lower case is Black.
pub open spec fn letter_color(c: char) -> Color {
    if 'a' <= c <= 'z' {
        Color::Black
    } else {
        Color::White
    }
}

/// A piece letter and the file and rank index it is placed on.
pub type Placed = (char, int, int);

/// Reads FEN piece placement from index `i` of `s`, the next square being file
/// `f` of rank `r`: ranks are separated by '/', from the 8th down; a digit
/// skips that many files; the field ends at a space or at the end of the text.
/// `None` when a character is none of these, a rank holds more than eight
/// files, or there are more than eight ranks.
pub open spec fn scan(s: Seq<char>, i: int, f: int, r: int) -> Option<Seq<Placed>>
    decreases s.len() - i,
{
    if i < 0 || i >= s.len() || s[i] == ' ' {
        Some(seq![])
    } else {
        let c = s[i];
        if c == '/' {
            if r <= 0 {
                None
            } else {
                scan(s, i + 1, 0, r - 1)
            }
        } else if '1' <= c <= '8' {
            let n = c as int - '0' as int;
            if f + n > 8 {
                None
            } else {
                scan(s, i + 1, f + n, r)
            }
        } else if is_piece_letter(c) {
            if f >= 8 {
                None
            } else {
                match scan(s, i + 1, f + 1, r) {
                    Some(rest) => Some(seq![(c, f, r)] + rest),
                    None => None,
                }
            }
        } else {
            None
        }
    }
}

/// The placement that FEN text `s` describes, in the order of its letters.
pub open spec fn fen_placement(s: Seq<char>) -> Option<Seq<Placed>> {
    scan(s, 0, 0, 7)
}

/// The piece that a placed letter stands for, on the square of `grid`.
pub open spec fn placed_piece(grid: [[Square; 8]; 8], e: Placed) -> Piece {
    Piece { color: letter_color(e.0), figure: letter_figure(e.0), square: grid[e.2][e.1] }
}

/// Reads the piece placement (the first field) of a FEN record into a board.
pub fn parse_fen(fen_string: &str) -> (r: Result<Board, ChessError>)
    ensures
        match r {
            Ok(b) => fen_placement(fen_string@) matches Some(list) && b.wf() && b.pieces@.len()
                == list.len() && forall|k: int|
                0 <= k < list.len() ==> #[trigger] b.pieces@[k] == placed_piece(b.squares, list[k]),
            Err(e) => e == ChessError::MalformedNotation && fen_placement(fen_string@) is None,
        },
{
    let ghost s = fen_string@;
    let mut board = Board::new();
    let ghost mut placed: Seq<Placed> = seq![];
    let n = fen_string.unicode_len();
    let mut i: usize = 0;
    let mut f: i8 = 0;
    let mut r: i8 = 7;
    while i < n && fen_string.get_char(i) != ' '
        invariant
            s == fen_string@,
            n == s.len(),
            i <= n,
            0 <= f <= 8,
            0 <= r <= 7,
            board.wf(),
            board.pieces@.len() == placed.len(),
            forall|k: int|
                0 <= k < placed.len() ==> #[trigger] board.pieces@[k] == placed_piece(
                    board.squares,
                    placed[k],
                ),
            forall|k: int|
                0 <= k < placed.len() ==> (#[trigger] placed[k]).2 > r || (placed[k].2 == r
                    && placed[k].1 < f),
            forall|fl: int, rk: int|
                on_board(fl, rk) && (rk < r || (rk == r && fl >= f)) ==> !#[trigger] occupied(
                    board.pieces@,
                    fl,
                    rk,
                ),
            fen_placement(s) == match scan(s, i as int, f as int, r as int) {
                Some(rest) => Some(placed + rest),
                None => None,
            },
        decreases n - i,
    {
        let c = fen_string.get_char(i);
        if c == '/' {
            if r == 0 {
                return Err(ChessError::MalformedNotation);
            }
            r -= 1;
            f = 0;
        } else if '1' <= c && c <= '8' {
            let k = (c as u32 - 48) as i8;
            if f + k > 8 {
                return Err(ChessError::MalformedNotation);
            }
            f += k;
        } else {
            let piece_sq = if f < 8 {
                Some(board.squares[r as usize][f as usize])
            } else {
                None
            };
            match piece_sq {
                Some(sq) => {
                    match Piece::from_fen(c, &sq) {
                        Ok(p) => {
                            let ghost e: Placed = (c, f as int, r as int);
                            assert(placed_piece(board.squares, e) == p);
                            assert(!occupied(board.pieces@, f as int, r as int));
                            let ghost before = board.pieces@;
                            board.add_piece(p);
                            proof {
                                assert forall|fl: int, rk: int|
                                    on_board(fl, rk) && (rk < r || (rk == r && fl >= f + 1)) implies !#[trigger] occupied(
                                        board.pieces@,
                                        fl,
                                        rk,
                                    ) by {
                                    assert(occupant(board.pieces@, fl, rk) == occupant(before, fl, rk));
                                }
                                let old_placed = placed;
                                placed = placed.push(e);
                                match scan(s, i as int + 1, f as int + 1, r as int) {
                                    Some(rest) => {
                                        assert(old_placed + (seq![e] + rest) =~= placed + rest);
                                    },
                                    None => {},
                                }
                            }
                            f += 1;
                        },
                        Err(_) => {
                            return Err(ChessError::MalformedNotation);
                        },
                    }
                },
                None => {
                    return Err(ChessError::MalformedNotation);
                },
            }
        }
        i += 1;
    }
    proof {
        assert(placed + seq![] =~= placed);
    }
    Ok(board)
}

/// Whether `c` is a piece letter or a digit from 1 to 8.
pub fn is_fen_piece_char(c: char) -> (r: bool)
    ensures
        r == (is_piece_letter(c) || ('1' <= c <= '8')),
{
    match c {
        'p' | 'r' | 'n' | 'b' | 'k' | 'q' | 'P' | 'R' | 'N' | 'B' | 'K' | 'Q' => true,
        '1' | '2' | '3' | '4' | '5' | '6' | '7' | '8' => true,
        _ => false,
    }
}

/// The chess symbol of a piece.
pub open spec fn symbol_of(c: Color, fig: Figure) -> char {
    match (fig, c) {
        (Figure::Pawn, Color::White) => '♙',
        (Figure::Rook, Color::White) => '♖',
        (Figure::Knight, Color::White) => '♘',
        (Figure::Bishop, Color::White) => '♗',
        (Figure::Queen, Color::White) => '♕',
        (Figure::King, Color::White) => '♔',
        (Figure::Pawn, Color::Black) => '♟',
        (Figure::Rook, Color::Black) => '♜',
        (Figure::Knight, Color::Black) => '♞',
        (Figure::Bishop, Color::Black) => '♝',
        (Figure::Queen, Color::Black) => '♛',
        (Figure::King, Color::Black) => '♚',
    }
}

/// Relies on std's `FromIterator<char>` for `String`: the string holds the
/// characters in order.
#[verifier::external_body]
fn string_of(chars: Vec<char>) -> (s: String)
    ensures
        s@ == chars@,
{
    String::from_iter(chars)
}

/// Text of a square: its file letter and rank digit in brackets, as "[e4]".
pub open spec fn square_text(s: Square) -> Seq<char> {
    seq!['[', s.pos.0, s.pos.1, ']']
}

/// Text of a move: the target square for a pawn; otherwise the upper-case
/// figure letter, the square it leaves and the target square.
pub open spec fn move_text(m: Move) -> Seq<char> {
    if m.piece.figure == Figure::Pawn {
        square_text(m.target_square)
    } else {
        seq![fen_letter(Color::White, m.piece.figure)] + square_text(m.piece.square) + square_text(
            m.target_square,
        )
    }
}

impl Piece {
    /// The chess symbol of this piece.
    pub fn to_symbol(&self) -> (s: String)
        ensures
            s@ == seq![symbol_of(self.color, self.figure)],
    {
        let c = match (self.figure, self.color) {
            (Figure::Pawn, Color::White) => '♙',
            (Figure::Rook, Color::White) => '♖',
            (Figure::Knight, Color::White) => '♘',
            (Figure::Bishop, Color::White) => '♗',
            (Figure::Queen, Color::White) => '♕',
            (Figure::King, Color::White) => '♔',
            (Figure::Pawn, Color::Black) => '♟',
            (Figure::Rook, Color::Black) => '♜',
            (Figure::Knight, Color::Black) => '♞',
            (Figure::Bishop, Color::Black) => '♝',
            (Figure::Queen, Color::Black) => '♛',
            (Figure::King, Color::Black) => '♚',
        };
        let v = vec![c];
        assert(v@ =~= seq![c]);
        string_of(v)
    }

    /// The FEN letter of this piece: capital for White.
    pub fn to_fen_letter(&self) -> (s: String)
        ensures
            s@ == seq![fen_letter(self.color, self.figure)],
    {
        let v = vec![self.print_piece()];
        assert(v@ =~= seq![fen_letter(self.color, self.figure)]);
        string_of(v)
    }

    /// The piece that FEN letter `s` stands for, on square `pos`.
    pub fn from_fen(s: char, pos: &Square) -> (r: Result<Piece, ChessError>)
        ensures
            match r {
                Ok(p) => is_piece_letter(s) && p == (Piece {
                    color: letter_color(s),
                    figure: letter_figure(s),
                    square: *pos,
                }),
                Err(e) => !is_piece_letter(s) && e == ChessError::MalformedNotation,
            },
    {
        let figure = match s {
            'p' | 'P' => Figure::Pawn,
            'r' | 'R' => Figure::Rook,
            'n' | 'N' => Figure::Knight,
            'b' | 'B' => Figure::Bishop,
            'q' | 'Q' => Figure::Queen,
            'k' | 'K' => Figure::King,
            _ => {
                return Err(ChessError::MalformedNotation);
            },
        };
        let color = if 'a' <= s && s <= 'z' {
            Color::Black
        } else {
            Color::White
        };
        Ok(Piece { color, figure, square: *pos })
    }
}

impl Move {
    /// The move as text, as "R[a1][a4]", or "[e4]" for a pawn.
    pub fn to_str(&self) -> (s: String)
        ensures
            s@ == move_text(*self),
    {
        let t = self.target_square;
        let mut v: Vec<char> = Vec::new();
        if self.piece.figure != Figure::Pawn {
            let white = Piece { color: Color::White, figure: self.piece.figure, square: t };
            v.push(white.print_piece());
            v.push('[');
            v.push(self.piece.square.pos.0);
            v.push(self.piece.square.pos.1);
            v.push(']');
        }
        v.push('[');
        v.push(t.pos.0);
        v.push(t.pos.1);
        v.push(']');
        assert(v@ =~= move_text(*self));
        string_of(v)
    }
}

} // verus!

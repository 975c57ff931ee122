use rust_chess::board::{Color, Figure, Piece, Square};
use rust_chess::error::ChessError;
use rust_chess::parser::{is_fen_piece_char, parse_fen};

fn sq(name: &str) -> Square {
    Square::from_str(name).unwrap()
}

#[test]
fn create_std_board_from_fen() {
    let std_fen = "rnbqkbnr/pppppppp/8/8/8/8/PPPPPPPP/RNBQKBNR w KQkq - 0 1";
    let board_in_starting_position = parse_fen(std_fen).unwrap();

    let back = [Figure::Rook, Figure::Knight, Figure::Bishop, Figure::Queen, Figure::King, Figure::Bishop, Figure::Knight, Figure::Rook];
    let files = ["a", "b", "c", "d", "e", "f", "g", "h"];
    let mut pieces_expected = vec![];
    for (i, f) in files.iter().enumerate() {
        pieces_expected.push(Piece { color: Color::White, figure: back[i], square: sq(&format!("{}1", f)) });
        pieces_expected.push(Piece { color: Color::White, figure: Figure::Pawn, square: sq(&format!("{}2", f)) });
        pieces_expected.push(Piece { color: Color::Black, figure: Figure::Pawn, square: sq(&format!("{}7", f)) });
        pieces_expected.push(Piece { color: Color::Black, figure: back[i], square: sq(&format!("{}8", f)) });
    }

    for piece in pieces_expected.iter() {
        assert_eq!(piece, board_in_starting_position.check_square_for_piece(&piece.square).unwrap());
    }
    assert_eq!(32, board_in_starting_position.pieces.len());
}

#[test]
fn create_test_position_from_fen() {
    let testfen = "r4k1r/1p1n1ppp/2p2n2/p7/P2qP3/2NP1Q2/1PP2RPP/R5K1 w - - 0 1";
    let board_in_test_position = parse_fen(testfen).unwrap();
    assert_eq!(24, board_in_test_position.pieces.len());
    assert_eq!(
        Some(&Piece { color: Color::Black, figure: Figure::Queen, square: sq("d4") }),
        board_in_test_position.check_square_for_piece(&sq("d4"))
    );
    assert_eq!(
        Some(&Piece { color: Color::White, figure: Figure::King, square: sq("g1") }),
        board_in_test_position.check_square_for_piece(&sq("g1"))
    );
}

#[test]
fn test_fen_export() {
    let white_knight = Piece { color: Color::White, figure: Figure::Knight, square: sq("g1") };
    let black_queen = Piece { color: Color::Black, figure: Figure::Queen, square: sq("d8") };
    assert_eq!("N", white_knight.to_fen_letter());
    assert_eq!("q", black_queen.to_fen_letter());
    assert_eq!("♘", white_knight.to_symbol());
    assert_eq!("♛", black_queen.to_symbol());
}

#[test]
fn empty_placement_has_no_pieces() {
    let board = parse_fen("8/8/8/8/8/8/8/8 w - - 0 1").unwrap();
    assert_eq!(0, board.pieces.len());
}

#[test]
fn start_placement_corners() {
    let board = parse_fen("rnbqkbnr/pppppppp/8/8/8/8/PPPPPPPP/RNBQKBNR w KQkq - 0 1").unwrap();
    assert_eq!(
        Some(&Piece { color: Color::White, figure: Figure::Rook, square: sq("a1") }),
        board.check_square_for_piece(&sq("a1"))
    );
    assert_eq!(
        Some(&Piece { color: Color::Black, figure: Figure::King, square: sq("e8") }),
        board.check_square_for_piece(&sq("e8"))
    );
}

#[test]
fn malformed_placement_is_refused() {
    assert_eq!(Err(ChessError::MalformedNotation), parse_fen("rnbxkbnr/8/8/8/8/8/8/8 w - - 0 1").map(|b| b.pieces.len()));
    assert_eq!(Err(ChessError::MalformedNotation), parse_fen("9/8/8/8/8/8/8/8").map(|b| b.pieces.len()));
    assert_eq!(Err(ChessError::MalformedNotation), parse_fen("8/8/8/8/8/8/8/8/8").map(|b| b.pieces.len()));
    assert_eq!(Err(ChessError::MalformedNotation), parse_fen("ppppppppp/8/8/8/8/8/8/8").map(|b| b.pieces.len()));
}

#[test]
fn digits_skip_files() {
    let board = parse_fen("2p5/8/8/8/8/8/8/8").unwrap();
    assert_eq!(
        Some(&Piece { color: Color::Black, figure: Figure::Pawn, square: sq("c8") }),
        board.check_square_for_piece(&sq("c8"))
    );
}

#[test]
fn fen_characters() {
    assert!(is_fen_piece_char('k'));
    assert!(is_fen_piece_char('Q'));
    assert!(is_fen_piece_char('8'));
    assert!(!is_fen_piece_char('9'));
    assert!(!is_fen_piece_char('x'));
}

#[test]
fn square_notation() {
    assert_eq!(('e', '4'), Square::from_str("E4").unwrap().pos);
    assert_eq!(Err(ChessError::InvalidNotation), Square::from_str("j1"));
    assert_eq!(Err(ChessError::InvalidNotation), Square::from_str("e44"));
    assert_eq!(Err(ChessError::InvalidNotation), Square::from_str(""));
}

#[test]
fn placed_piece_is_found() {
    let mut board = rust_chess::board::Board::new();
    let p = Piece { color: Color::Black, figure: Figure::Knight, square: sq("c6") };
    board.add_piece(p);
    assert_eq!(Some(&p), board.check_square_for_piece(&sq("c6")));
    board.remove_piece_by_square(&sq("c6"));
    assert_eq!(None, board.check_square_for_piece(&sq("c6")));
}

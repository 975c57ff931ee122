use rust_chess::board::{Board, Color, Figure, Piece, Square};
use std::collections::HashSet;

fn set_of(squares: Vec<Square>) -> HashSet<Square> {
    squares.into_iter().collect()
}

#[test]
fn core_test_board_indexing() {
    let board = Board::new();
    assert_eq!(&Square { pos: ('a', '4') }, board.get("a4").unwrap());
    assert_ne!(&Square { pos: ('h', '1') }, board.get("a1").unwrap());
    // also check Square.from method
    assert_eq!(&Square::from_str("f3").unwrap(), board.get("f3").unwrap());
    assert_eq!(&Square::from_str("f3").unwrap(), board.get_from_tup((5, 2)).unwrap());
    assert_eq!(&Square::from_str("a1").unwrap(), board.get_from_tup((0, 0)).unwrap());
}

#[test]
fn core_test_board_indexing_out_of_bounds() {
    let board = Board::new();
    assert_eq!(None, board.get("j1"));
    assert_eq!(None, board.get("a9"));
}

#[test]
fn core_test_board_get_file() {
    let board = Board::new();
    let board_file = set_of(board.get_file_from_square(board.get_unchecked("b2")));

    let file = &["b1", "b2", "b3", "b4", "b5", "b6", "b7", "b8"];
    let file_squares: HashSet<Square> = file.iter().map(|f| *board.get(f).unwrap()).collect();
    let diff: HashSet<Square> = file_squares.symmetric_difference(&board_file).cloned().collect();
    assert_eq!(true, diff.is_empty());

    let file_mixed = &["b1", "b2", "c3", "d4", "b5", "b6", "e7", "b8"];
    let file_squares_mixed: HashSet<Square> =
        file_mixed.iter().map(|f| *board.get(f).unwrap()).collect();
    let diff: HashSet<Square> =
        file_squares_mixed.symmetric_difference(&board_file).cloned().collect();
    assert_eq!(6, diff.len());
}

#[test]
fn core_test_board_get_rank() {
    let board = Board::new();
    let board_rank = set_of(board.get_rank_from_square(board.get_unchecked("c1")));

    let rank = &["a1", "b1", "c1", "d1", "e1", "f1", "g1", "h1"];
    let rank_squares: HashSet<Square> = rank.iter().map(|f| *board.get(f).unwrap()).collect();
    let diff: HashSet<Square> = rank_squares.symmetric_difference(&board_rank).cloned().collect();
    assert_eq!(true, diff.is_empty());

    let rank_mixed = &["b1", "b2", "c3", "d4", "b5", "b6", "e7", "b8"];
    let rank_squares_mixed: HashSet<Square> =
        rank_mixed.iter().map(|f| *board.get(f).unwrap()).collect();
    let diff: HashSet<Square> =
        rank_squares_mixed.symmetric_difference(&board_rank).cloned().collect();
    assert_eq!(14, diff.len());
}

#[test]
fn core_test_board_get_diag() {
    let board = Board::new();
    let board_diag = set_of(board.get_diag_from_square(board.get_unchecked("a1")));

    let diag = &["a1", "b2", "c3", "d4", "e5", "f6", "g7", "h8"];
    let diag_squares: HashSet<Square> = diag.iter().map(|d| *board.get(d).unwrap()).collect();
    let diff: HashSet<Square> = diag_squares.symmetric_difference(&board_diag).cloned().collect();
    assert_eq!(true, diff.is_empty());

    let board_diag = set_of(board.get_diag_from_square(board.get_unchecked("e7")));
    let diag = &["a3", "b4", "c5", "d6", "e7", "f8", "d8", "f6", "g5", "h4"];
    let diag_squares: HashSet<Square> = diag.iter().map(|d| *board.get(d).unwrap()).collect();
    let diff: HashSet<Square> = diag_squares.symmetric_difference(&board_diag).cloned().collect();
    assert_eq!(true, diff.is_empty());
}

#[test]
fn core_test_square_arithmetics() {
    let board = Board::new();
    let square = board.get_unchecked("e2");
    assert_eq!(square.pos, square.move_by((0, 0)).unwrap().pos);
    assert_eq!(board.get_unchecked("f2").pos, square.move_by((1, 0)).unwrap().pos);
    assert_eq!(board.get_unchecked("a8").pos, square.move_by((-4, 6)).unwrap().pos);
}

#[test]
fn core_test_board_check_square_for_piece() {
    let board = &mut Board::new();
    let pieces = vec![
        Piece { color: Color::Black, figure: Figure::Rook, square: *board.get_unchecked("a3") },
        Piece { color: Color::White, figure: Figure::King, square: *board.get_unchecked("a8") },
        Piece { color: Color::Black, figure: Figure::Pawn, square: *board.get_unchecked("a7") },
        Piece { color: Color::White, figure: Figure::King, square: *board.get_unchecked("e6") },
    ];

    for &piece in pieces.iter() {
        board.pieces.push(piece);
    }

    assert_eq!(true, board.check_square_for_piece(board.get_unchecked("a3")).is_some());
    assert_eq!(false, board.check_square_for_piece(board.get_unchecked("b2")).is_some());
    assert_eq!(true, board.check_square_for_piece(board.get_unchecked("b2")).is_none());
    assert_eq!(true, board.check_square_for_piece(board.get_unchecked("a8")).is_some());
    assert_eq!(false, board.check_square_for_piece(board.get_unchecked("h1")).is_some());
    assert_eq!(true, board.check_square_for_piece(board.get_unchecked("a7")).is_some());
    assert_eq!(true, board.check_square_for_piece(board.get_unchecked("e6")).is_some());
}

#[test]
fn core_test_pieces_pawn_available_squares() {
    let board = &mut Board::new();
    let pawn = Piece { color: Color::White, figure: Figure::Pawn, square: *board.get_unchecked("e2") };
    board.add_piece(pawn);
    let expected: HashSet<Square> =
        [*board.get_unchecked("e3"), *board.get_unchecked("e4")].into_iter().collect();
    assert_eq!(expected, set_of(pawn.get_available_squares(board)));
}

#[test]
fn core_test_pieces_rook_available_squares() {
    let board = &mut Board::new();
    let rook = Piece { color: Color::White, figure: Figure::Rook, square: *board.get_unchecked("a1") };
    board.add_piece(rook);
    assert_eq!(14, rook.get_available_squares(board).len());
}

#[test]
fn core_test_pieces_knight_available_squares() {
    let board = &mut Board::new();
    let knight = Piece { color: Color::White, figure: Figure::Knight, square: *board.get_unchecked("h8") };
    board.add_piece(knight);
    let expected: HashSet<Square> =
        [*board.get_unchecked("g6"), *board.get_unchecked("f7")].into_iter().collect();
    assert_eq!(expected, set_of(knight.get_available_squares(board)));
}

#[test]
fn core_test_pieces_bishop_available_squares() {
    let board = &mut Board::new();
    let bishop = Piece { color: Color::Black, figure: Figure::Bishop, square: *board.get_unchecked("d4") };
    board.add_piece(bishop);
    assert_eq!(13, bishop.get_available_squares(board).len());
}

#[test]
fn core_test_pieces_queen_available_squares() {
    let board = &mut Board::new();
    let queen = Piece { color: Color::Black, figure: Figure::Queen, square: *board.get_unchecked("d4") };
    board.add_piece(queen);
    assert_eq!(27, queen.get_available_squares(board).len());
}

#[test]
fn core_test_pieces_king_available_squares() {
    let board = &mut Board::new();
    let king = Piece { color: Color::Black, figure: Figure::King, square: *board.get_unchecked("a1") };
    board.add_piece(king);
    let expected: HashSet<Square> = [
        *board.get_unchecked("a2"),
        *board.get_unchecked("b1"),
        *board.get_unchecked("b2"),
    ]
    .into_iter()
    .collect();
    assert_eq!(expected, set_of(king.get_available_squares(board)));
}

#[test]
fn line_runs_to_the_edge() {
    let board = Board::new();
    let line = board.line(board.get_unchecked("c3"), (1, 1));
    let names: Vec<(char, char)> = line.iter().map(|s| s.pos).collect();
    assert_eq!(vec![('d', '4'), ('e', '5'), ('f', '6'), ('g', '7'), ('h', '8')], names);
    assert_eq!(0, board.line(board.get_unchecked("a1"), (-1, 0)).len());
    assert_eq!(7, board.line(board.get_unchecked("a1"), (0, 1)).len());
}

#[test]
fn occupants_lists_pieces() {
    let mut board = Board::new();
    assert_eq!(0, board.occupants().len());
    let rook = Piece { color: Color::White, figure: Figure::Rook, square: *board.get_unchecked("h1") };
    board.add_piece(rook);
    assert_eq!(&vec![rook], board.occupants());
    assert_eq!(64, board.squares_as_vec().len());
    assert_eq!(('a', '1'), board.squares_as_vec()[0].pos);
    assert_eq!(('b', '1'), board.squares_as_vec()[1].pos);
}

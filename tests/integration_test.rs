use rust_chess::board::{Board, Color, Figure, Piece, Square};
use rust_chess::game::Game;
use std::collections::HashSet;

fn empty_board() -> Board {
    Board::new()
}

// a ','-separated list of squares
fn sqrs(board: &Board, squares: &str) -> HashSet<Square> {
    squares.split(",").map(|sq| *board.get_unchecked(sq.trim())).collect()
}

fn available(piece: &Piece, board: &Board) -> HashSet<Square> {
    piece.get_available_squares(board).into_iter().collect()
}

#[test]
fn integration_test_board_indexing() {
    let board = Board::new();
    assert_eq!(&Square { pos: ('a', '4') }, board.get("a4").unwrap());
    assert_ne!(&Square { pos: ('h', '1') }, board.get("a1").unwrap());
    // also check Square.from method
    assert_eq!(&Square::from_str("f3").unwrap(), board.get("f3").unwrap());
    assert_eq!(&Square::from_str("f3").unwrap(), board.get_from_tup((5, 2)).unwrap());
    assert_eq!(&Square::from_str("a1").unwrap(), board.get_from_tup((0, 0)).unwrap());

    let square = &Square::from_str("a3").unwrap();
    assert_eq!(square, board.get_from_square(square).unwrap());
}

#[test]
fn integration_test_board_indexing_out_of_bounds() {
    let board = Board::new();
    assert_eq!(None, board.get("j1"));
    assert_eq!(None, board.get("a9"));
}

#[test]
fn integration_test_board_get_file() {
    let board = Board::new();
    let board_file: HashSet<Square> =
        board.get_file_from_square(board.get_unchecked("b2")).into_iter().collect();

    let file = &["b1", "b2", "b3", "b4", "b5", "b6", "b7", "b8"];
    let file_squares: HashSet<Square> = file.iter().map(|f| *board.get(f).unwrap()).collect();
    let diff: HashSet<Square> = file_squares.symmetric_difference(&board_file).cloned().collect();
    assert_eq!(true, diff.is_empty());

    let file_mixed = &["b1", "b2", "c3", "d4", "b5", "b6", "e7", "b8"];
    let file_squares_mixed: HashSet<Square> =
        file_mixed.iter().map(|f| *board.get(f).unwrap()).collect();
    let diff: HashSet<Square> =
        file_squares_mixed.symmetric_difference(&board_file).cloned().collect();
    assert_eq!(6, diff.len());
}

#[test]
fn integration_test_board_get_rank() {
    let board = Board::new();
    let board_rank: HashSet<Square> =
        board.get_rank_from_square(board.get_unchecked("c1")).into_iter().collect();

    let rank = &["a1", "b1", "c1", "d1", "e1", "f1", "g1", "h1"];
    let rank_squares: HashSet<Square> = rank.iter().map(|f| *board.get(f).unwrap()).collect();
    let diff: HashSet<Square> = rank_squares.symmetric_difference(&board_rank).cloned().collect();
    assert_eq!(true, diff.is_empty());

    let rank_mixed = &["b1", "b2", "c3", "d4", "b5", "b6", "e7", "b8"];
    let rank_squares_mixed: HashSet<Square> =
        rank_mixed.iter().map(|f| *board.get(f).unwrap()).collect();
    let diff: HashSet<Square> =
        rank_squares_mixed.symmetric_difference(&board_rank).cloned().collect();
    assert_eq!(14, diff.len());
}

#[test]
fn integration_test_board_get_diag() {
    let board = Board::new();
    let board_diag: HashSet<Square> =
        board.get_diag_from_square(board.get_unchecked("a1")).into_iter().collect();

    let diag = &["a1", "b2", "c3", "d4", "e5", "f6", "g7", "h8"];
    let diag_squares: HashSet<Square> = diag.iter().map(|d| *board.get(d).unwrap()).collect();
    let diff: HashSet<Square> = diag_squares.symmetric_difference(&board_diag).cloned().collect();
    assert_eq!(true, diff.is_empty());

    let board_diag: HashSet<Square> =
        board.get_diag_from_square(board.get_unchecked("e7")).into_iter().collect();
    let diag = &["a3", "b4", "c5", "d6", "e7", "f8", "d8", "f6", "g5", "h4"];
    let diag_squares: HashSet<Square> = diag.iter().map(|d| *board.get(d).unwrap()).collect();
    let diff: HashSet<Square> = diag_squares.symmetric_difference(&board_diag).cloned().collect();
    assert_eq!(true, diff.is_empty());
}

#[test]
fn integration_test_square_arithmetics() {
    let board = Board::new();
    let square = board.get_unchecked("e2");
    assert_eq!(square.pos, square.move_by((0, 0)).unwrap().pos);
    assert_eq!(board.get_unchecked("f2").pos, square.move_by((1, 0)).unwrap().pos);
    assert_eq!(board.get_unchecked("a8").pos, square.move_by((-4, 6)).unwrap().pos);
}

#[test]
fn integration_test_board_check_square_for_piece() {
    let mut board = empty_board();
    let pieces = [
        Piece { color: Color::Black, figure: Figure::Rook, square: *board.get_unchecked("a3") },
        Piece { color: Color::White, figure: Figure::King, square: *board.get_unchecked("a8") },
        Piece { color: Color::Black, figure: Figure::Pawn, square: *board.get_unchecked("a7") },
        Piece { color: Color::White, figure: Figure::King, square: *board.get_unchecked("e6") },
    ];
    board.pieces.extend_from_slice(&pieces);

    assert_eq!(true, board.check_square_for_piece(board.get_unchecked("a3")).is_some());
    assert_eq!(false, board.check_square_for_piece(board.get_unchecked("b2")).is_some());
    assert_eq!(true, board.check_square_for_piece(board.get_unchecked("b2")).is_none());
    assert_eq!(true, board.check_square_for_piece(board.get_unchecked("a8")).is_some());
    assert_eq!(false, board.check_square_for_piece(board.get_unchecked("h1")).is_some());
    assert_eq!(true, board.check_square_for_piece(board.get_unchecked("a7")).is_some());
    assert_eq!(true, board.check_square_for_piece(board.get_unchecked("e6")).is_some());
    assert_eq!(pieces.len(), board.pieces.len());
}

#[test]
fn add_and_remove_pieces() {
    let board = &mut Board::new();
    let piece = Piece { color: Color::White, figure: Figure::King, square: *board.get_unchecked("b3") };

    board.add_piece(piece);
    assert_eq!(true, board.check_square_for_piece(board.get_unchecked("b3")).is_some());
    board.remove_piece(piece);
    assert_eq!(true, board.check_square_for_piece(board.get_unchecked("b3")).is_none());
    assert_eq!(0, board.pieces.len());
}

#[test]
fn integration_test_pieces_pawn_available_squares() {
    let board = &mut Board::new();
    let pieces_and_moves = vec![
        // free pawn on starting position with no pieces to capture
        (
            Piece { color: Color::White, figure: Figure::Pawn, square: *board.get_unchecked("a2") },
            HashSet::from([*board.get_unchecked("a3"), *board.get_unchecked("a4")]),
        ),
        // pawn blocked by another pawn with no pieces to capture
        (
            Piece { color: Color::White, figure: Figure::Pawn, square: *board.get_unchecked("d3") },
            HashSet::from([]),
        ),
        // free pawn not on starting position with no pieces to capture
        (
            Piece { color: Color::White, figure: Figure::Pawn, square: *board.get_unchecked("d4") },
            HashSet::from([*board.get_unchecked("d5")]),
        ),
        // pawn in starting position where another pawn blocks the two-square move
        (
            Piece { color: Color::White, figure: Figure::Pawn, square: *board.get_unchecked("f2") },
            HashSet::from([*board.get_unchecked("f3")]),
        ),
        // pawn on non-starting position with the option to capture on g5
        (
            Piece { color: Color::White, figure: Figure::Pawn, square: *board.get_unchecked("f4") },
            HashSet::from([*board.get_unchecked("f5"), *board.get_unchecked("g5")]),
        ),
        // free pawn with capture
        (
            Piece { color: Color::Black, figure: Figure::Pawn, square: *board.get_unchecked("g5") },
            HashSet::from([*board.get_unchecked("g4"), *board.get_unchecked("f4")]),
        ),
    ];

    for piece in pieces_and_moves.iter() {
        board.pieces.push(piece.0);
    }

    for curr in pieces_and_moves {
        assert_eq!(available(&curr.0, board), curr.1);
    }
}

#[test]
fn integration_test_pieces_rook_available_squares() {
    let mut board = empty_board();
    let pieces = [
        Piece { color: Color::White, figure: Figure::Rook, square: *board.get_unchecked("d4") },
        Piece { color: Color::White, figure: Figure::King, square: *board.get_unchecked("d5") },
        Piece { color: Color::Black, figure: Figure::Rook, square: *board.get_unchecked("d3") },
    ];
    board.pieces.extend_from_slice(&pieces);
    let expected_squares_white_rook: HashSet<Square> = HashSet::from([
        *board.get_unchecked("d3"),
        *board.get_unchecked("a4"),
        *board.get_unchecked("b4"),
        *board.get_unchecked("c4"),
        *board.get_unchecked("e4"),
        *board.get_unchecked("f4"),
        *board.get_unchecked("g4"),
        *board.get_unchecked("h4"),
    ]);
    let expected_squares_black_rook: HashSet<Square> = HashSet::from([
        *board.get_unchecked("d1"),
        *board.get_unchecked("d2"),
        *board.get_unchecked("d4"),
        *board.get_unchecked("a3"),
        *board.get_unchecked("b3"),
        *board.get_unchecked("c3"),
        *board.get_unchecked("e3"),
        *board.get_unchecked("f3"),
        *board.get_unchecked("g3"),
        *board.get_unchecked("h3"),
    ]);

    let white_rook = *board.check_square_for_piece(board.get_unchecked("d4")).unwrap();
    assert_eq!(
        true,
        available(&white_rook, &board)
            .symmetric_difference(&expected_squares_white_rook)
            .collect::<HashSet<&Square>>()
            .is_empty()
    );
    let black_rook = *board.check_square_for_piece(board.get_unchecked("d3")).unwrap();
    assert_eq!(
        true,
        available(&black_rook, &board)
            .symmetric_difference(&expected_squares_black_rook)
            .collect::<HashSet<&Square>>()
            .is_empty()
    );
}

#[test]
fn integration_test_pieces_knight_available_squares() {
    let mut board = empty_board();
    let pieces = [
        Piece { color: Color::White, figure: Figure::Knight, square: *board.get_unchecked("e4") },
        Piece { color: Color::Black, figure: Figure::Knight, square: *board.get_unchecked("a1") },
    ];
    board.pieces.extend_from_slice(&pieces);
    let ne4_expected = sqrs(&board, "d2, f2, c3, g3, c5, g5, d6, f6");
    let na1_expected = sqrs(&board, "c2, b3");

    let ne4 = *board.check_square_for_piece(board.get_unchecked("e4")).unwrap();
    assert_eq!(
        true,
        available(&ne4, &board)
            .symmetric_difference(&ne4_expected)
            .collect::<HashSet<&Square>>()
            .is_empty()
    );
    let na1 = *board.check_square_for_piece(board.get_unchecked("a1")).unwrap();
    assert_eq!(
        true,
        available(&na1, &board)
            .symmetric_difference(&na1_expected)
            .collect::<HashSet<&Square>>()
            .is_empty()
    );
}

#[test]
fn integration_test_pieces_bishop_available_squares() {
    let mut board = empty_board();
    let pieces = [
        Piece { color: Color::Black, figure: Figure::Bishop, square: *board.get_unchecked("a1") },
        Piece { color: Color::White, figure: Figure::Bishop, square: *board.get_unchecked("c3") },
        Piece { color: Color::White, figure: Figure::Bishop, square: *board.get_unchecked("b6") },
    ];

    board.pieces.extend_from_slice(&pieces);

    let ba1_expected = sqrs(&board, "b2, c3");
    let bc3_expected = sqrs(&board, "a1, b2, b4, a5, d2, e1, d4, e5, f6, g7, h8");
    let bb6_expected = sqrs(&board, "a5, a7, c7, d8, c5, d4, e3, f2, g1");

    for (name, expected) in [("a1", ba1_expected), ("c3", bc3_expected), ("b6", bb6_expected)] {
        let bishop = *board.check_square_for_piece(board.get_unchecked(name)).unwrap();
        assert_eq!(
            true,
            available(&bishop, &board)
                .symmetric_difference(&expected)
                .collect::<HashSet<&Square>>()
                .is_empty()
        );
    }
}

#[test]
fn integration_test_pieces_queen_available_squares() {
    let mut board = empty_board();
    let queen = Piece { color: Color::White, figure: Figure::Queen, square: *board.get_unchecked("a2") };
    board.pieces.push(queen);
    let qa2_expected = sqrs(
        &board,
        "a1, a3, a4, a5, a6, a7, a8, b1, b2, b3, c4, d5, e6, f7, g8, c2, d2, e2, f2, g2, h2",
    );
    let qa2 = *board.check_square_for_piece(board.get_unchecked("a2")).unwrap();
    assert_eq!(
        true,
        available(&qa2, &board)
            .symmetric_difference(&qa2_expected)
            .collect::<HashSet<&Square>>()
            .is_empty()
    );
}

#[test]
fn integration_test_pieces_king_available_squares() {
    let mut board = empty_board();
    let king = Piece { color: Color::White, figure: Figure::King, square: *board.get_unchecked("b2") };
    board.pieces.push(king);
    let kb2_expected = sqrs(&board, "a1, a2, a3, b1, b3, c1, c2, c3");
    let kb2 = *board.check_square_for_piece(board.get_unchecked("b2")).unwrap();
    assert_eq!(
        true,
        available(&kb2, &board)
            .symmetric_difference(&kb2_expected)
            .collect::<HashSet<&Square>>()
            .is_empty()
    );
}

#[test]
fn is_check() {
    let mut board = empty_board();
    let pawn = Piece { color: Color::White, figure: Figure::Pawn, square: *board.get_unchecked("a2") };
    let pawn_2 = Piece { color: Color::White, figure: Figure::Pawn, square: *board.get_unchecked("b6") };
    let rook = Piece { color: Color::White, figure: Figure::Rook, square: *board.get_unchecked("h4") };
    let king = Piece { color: Color::Black, figure: Figure::King, square: *board.get_unchecked("a4") };
    board.pieces.extend_from_slice(&[pawn, pawn_2, king, rook]);
    println!("is check? {}", board.is_attacked(king));
    // the rook on h4 sees the king along the fourth rank
    assert_eq!(true, board.is_attacked(king));
}

#[test]
fn integration_test_is_checkmate() {
    let mut game = Game::new();
    game.move_from_str("f2-f3").unwrap();
    game.move_from_str("e7-e5").unwrap();
    game.move_from_str("g2-g4").unwrap();
    game.move_from_str("d8-h4").unwrap();
    assert_eq!(true, game.in_checkmate());
    assert_eq!(false, game.in_stale_mate());
}

#[test]
fn checked_king_available_squares() {
    let mut board = empty_board();
    let king = Piece { color: Color::White, figure: Figure::King, square: *board.get_unchecked("e1") };
    let rook = Piece { color: Color::Black, figure: Figure::Rook, square: *board.get_unchecked("a1") };
    let black_king = Piece { color: Color::Black, figure: Figure::King, square: *board.get_unchecked("h8") };
    board.pieces.extend_from_slice(&[king, rook, black_king]);
    let mut game = Game::new();
    game.board = board;
    assert_eq!(true, game.in_check());
    let targets: HashSet<Square> =
        game.get_moves(Color::White).iter().map(|m| m.target_square).collect();
    let expected = sqrs(&game.board, "d2, e2, f2");
    assert_eq!(expected, targets);
}

#[test]
fn pinned_piece_cannot_move() {
    let mut board = empty_board();
    let king = Piece { color: Color::White, figure: Figure::King, square: *board.get_unchecked("e1") };
    let knight = Piece { color: Color::White, figure: Figure::Knight, square: *board.get_unchecked("e2") };
    let rook = Piece { color: Color::Black, figure: Figure::Rook, square: *board.get_unchecked("e8") };
    let black_king = Piece { color: Color::Black, figure: Figure::King, square: *board.get_unchecked("a8") };
    board.pieces.extend_from_slice(&[king, knight, rook, black_king]);
    let mut game = Game::new();
    game.board = board;
    assert_eq!(false, game.get_moves(Color::White).iter().any(|m| m.piece == knight));
}

#[test]
fn integration_test_check_threefold_repitition() {
    let mut game = Game::new();
    for _ in 0..2 {
        game.move_from_str("g1-f3").unwrap();
        game.move_from_str("g8-f6").unwrap();
        game.move_from_str("f3-g1").unwrap();
        game.move_from_str("f6-g8").unwrap();
    }
    // repetitions are recorded in the history; no draw rule is applied
    assert_eq!(8, game.moves.len());
    assert_eq!(true, game.state.result.is_none());
}

#[test]
fn integration_test_check_insufficient_material() {
    let mut board = empty_board();
    let king = Piece { color: Color::White, figure: Figure::King, square: *board.get_unchecked("e1") };
    let black_king = Piece { color: Color::Black, figure: Figure::King, square: *board.get_unchecked("e8") };
    board.pieces.extend_from_slice(&[king, black_king]);
    let mut game = Game::new();
    game.board = board;
    assert_eq!(5, game.get_moves(Color::White).len());
    assert_eq!(false, game.in_stale_mate());
}

#[test]
fn integration_test_check_en_passant_move() {
    let mut game = Game::new();
    game.move_from_str("e2-e4").unwrap();
    game.move_from_str("a7-a6").unwrap();
    game.move_from_str("e4-e5").unwrap();
    game.move_from_str("d7-d5").unwrap();
    game.move_from_str("e5-d6").unwrap();
    let d6 = *game.board.get_unchecked("d6");
    let d5 = *game.board.get_unchecked("d5");
    assert_eq!(
        Some(&Piece { color: Color::White, figure: Figure::Pawn, square: d6 }),
        game.board.check_square_for_piece(&d6)
    );
    assert_eq!(None, game.board.check_square_for_piece(&d5));
}

#[test]
fn integration_test_check_fifty_move_rule() {
    let game = Game::new();
    assert_eq!(0, game.moves.len());
}

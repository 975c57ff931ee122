use rust_chess::board::{Board, Color, Figure, Piece, Square};
use rust_chess::error::ChessError;
use rust_chess::game::{Game, GameResult, Move};
use rust_chess::parser::parse_fen;

fn empty_board() -> Board {
    Board::new()
}

fn sq(name: &str) -> Square {
    Square::from_str(name).unwrap()
}

#[test]
fn create_game() {
    let mut game = Game::new();
    game.move_from_str("e2-e4").unwrap();
    game.move_from_str("e7-e6").unwrap();
    game.move_from_str("d2-d4").unwrap();
    game.move_from_str("f8-b4").unwrap();
    game.move_from_str("b1-c3").unwrap();
    assert_eq!(5, game.moves.len());
}

#[test]
fn simulate_move() {
    let mut base = Game::new();
    base.move_from_str("e2-e4").unwrap();
    base.move_from_str("e7-e5").unwrap();
    base.move_from_str("d2-d4").unwrap();

    let copy = base.simulate_move(base.generate_move_from_str("e5-d4").unwrap());
    let copyd4 = copy.board.check_square_for_piece(&sq("d4")).unwrap();
    let based4 = base.board.check_square_for_piece(&sq("d4")).unwrap();

    assert_eq!(Piece { color: Color::Black, figure: Figure::Pawn, square: sq("d4") }, *copyd4);
    assert_eq!(Piece { color: Color::White, figure: Figure::Pawn, square: sq("d4") }, *based4);

    // simulate_move with state checks
    let mut board = empty_board();
    let kd8 = Piece { color: Color::Black, figure: Figure::King, square: *board.get_unchecked("d8") };
    let kc2 = Piece { color: Color::White, figure: Figure::King, square: *board.get_unchecked("c2") };
    let rc1 = Piece { color: Color::White, figure: Figure::Rook, square: *board.get_unchecked("c1") };
    board.pieces.extend(vec![kd8, kc2, rc1]);

    let mut game = Game::new();
    game.board = board;

    assert_eq!(Color::White, game.current_color());
    // move the rook from c1 to a checking square (d1)
    let mut vmove = game.generate_move_from_str("c1-d1").unwrap();
    assert_eq!(true, game.simulate_move(vmove).in_check());
    assert_eq!(false, game.in_check());

    // a black rook on d7 blocks the check; moving it away exposes the king
    game.board.pieces.push(Piece { color: Color::Black, figure: Figure::Rook, square: sq("d7") });
    game.move_from_str("c1-d1").unwrap();
    assert_eq!(false, game.in_check_color(Color::Black));
    vmove = game.generate_move_from_str("d7-e7").unwrap();
    assert_eq!(true, game.simulate_move(vmove).in_check_color(Color::Black));
}

#[test]
fn available_moves() {
    let game = Game::new();
    assert_eq!(20, game.get_moves(Color::White).len());
    assert_eq!(20, game.get_moves(Color::Black).len());
}

#[test]
fn make_valid_moves() {
    let mut game = Game::new();
    assert_eq!(Ok(()), game.move_from_str("e2-e4"));
    assert_eq!(Ok(()), game.move_from_str("e7-e5"));
    assert_eq!(Ok(()), game.move_from_str("f1-b5"));
    let b5 = sq("b5");
    assert_eq!(
        Some(&Piece { color: Color::White, figure: Figure::Bishop, square: b5 }),
        game.board.check_square_for_piece(&b5)
    );
    assert_eq!(None, game.board.check_square_for_piece(&sq("f1")));
    assert_eq!(Color::Black, game.current_color());
}

#[test]
fn attempt_invalid_moves() {
    let mut game = Game::new();
    assert_eq!(Err(ChessError::IllegalMove), game.move_from_str("e2-e5"));
    assert_eq!(Err(ChessError::IllegalMove), game.move_from_str("e7-e5"));
    assert_eq!(Err(ChessError::InvalidNotation), game.move_from_str("e3-e4"));
    assert_eq!(Err(ChessError::InvalidNotation), game.move_from_str("e2e4"));
    assert_eq!(0, game.moves.len());
    assert_eq!(Color::White, game.current_color());
}

#[test]
fn game_test_is_checkmate() {
    let mut game = Game::new();
    game.move_from_str("f2-f3").unwrap();
    game.move_from_str("e7-e5").unwrap();
    game.move_from_str("g2-g4").unwrap();
    game.move_from_str("d8-h4").unwrap();
    assert_eq!(true, game.in_check());
    assert_eq!(true, game.in_checkmate());
    assert_eq!(Some(GameResult::BlackWin), game.state.result);
    assert_eq!(Err(ChessError::GameOver), game.move_from_str("a2-a3"));
}

#[test]
fn game_test_check_threefold_repitition() {
    let mut game = Game::new();
    for _ in 0..3 {
        game.move_from_str("b1-c3").unwrap();
        game.move_from_str("b8-c6").unwrap();
        game.move_from_str("c3-b1").unwrap();
        game.move_from_str("c6-b8").unwrap();
    }
    assert_eq!(12, game.moves.len());
    assert_eq!(None, game.state.result);
}

#[test]
fn game_test_check_insufficient_material() {
    let mut game = Game::new();
    game.board = parse_fen("8/8/8/4k3/8/8/8/4K3 w - - 0 1").unwrap();
    assert_eq!(5, game.get_moves(Color::White).len());
    assert_eq!(8, game.get_moves(Color::Black).len());
}

#[test]
fn game_test_check_en_passant_move() {
    let mut game = Game::new();
    game.move_from_str("e2-e4").unwrap();
    let pawn = Piece { color: Color::White, figure: Figure::Pawn, square: sq("e4") };
    assert_eq!(vec![(pawn, sq("e3"))], game.state.possible_en_passant_moves);
    game.move_from_str("d7-d6").unwrap();
    assert_eq!(0, game.state.possible_en_passant_moves.len());
}

#[test]
fn game_test_check_fifty_move_rule() {
    let mut game = Game::new();
    game.move_from_str("g1-f3").unwrap();
    assert_eq!(1, game.moves.len());
    assert_eq!(None, game.state.result);
}

#[test]
fn castling_kingside_moves_rook() {
    let mut game = Game::new();
    game.board = parse_fen("r3k2r/8/8/8/8/8/8/R3K2R w KQkq - 0 1").unwrap();
    let moves = game.get_moves(Color::White);
    let king = Piece { color: Color::White, figure: Figure::King, square: sq("e1") };
    assert!(moves.contains(&Move { piece: king, target_square: sq("g1") }));
    assert!(moves.contains(&Move { piece: king, target_square: sq("c1") }));
    assert_eq!(Ok(()), game.move_from_str("e1-g1"));
    assert_eq!(
        Some(&Piece { color: Color::White, figure: Figure::Rook, square: sq("f1") }),
        game.board.check_square_for_piece(&sq("f1"))
    );
    assert_eq!(None, game.board.check_square_for_piece(&sq("h1")));
    // White's rights are gone after the king moved
    assert!(game.state.castling_privileges.iter().all(|pair| pair.0.color == Color::Black));
}

#[test]
fn castling_refused_through_attacked_square() {
    let mut game = Game::new();
    game.board = parse_fen("4k3/8/8/8/8/8/5r2/R3K2R w KQ - 0 1").unwrap();
    let king = Piece { color: Color::White, figure: Figure::King, square: sq("e1") };
    let moves = game.get_moves(Color::White);
    assert!(!moves.contains(&Move { piece: king, target_square: sq("g1") }));
    assert!(moves.contains(&Move { piece: king, target_square: sq("c1") }));
}

#[test]
fn promotion_makes_a_queen() {
    let mut game = Game::new();
    game.board = parse_fen("7k/P7/8/8/8/8/8/K7 w - - 0 1").unwrap();
    assert_eq!(Ok(()), game.move_from_str("a7-a8"));
    assert_eq!(
        Some(&Piece { color: Color::White, figure: Figure::Queen, square: sq("a8") }),
        game.board.check_square_for_piece(&sq("a8"))
    );
}

#[test]
fn stalemate_is_a_draw() {
    let mut game = Game::new();
    game.board = parse_fen("k7/8/1Q6/8/8/8/8/7K w - - 0 1").unwrap();
    assert_eq!(Ok(()), game.move_from_str("b6-c7"));
    assert_eq!(true, game.in_stale_mate());
    assert_eq!(Some(GameResult::Draw), game.state.result);
}

#[test]
fn simulate_leaves_receiver_unchanged() {
    let game = Game::new();
    let before = game.board.pieces.clone();
    let mv = game.generate_move_from_str("g1-f3").unwrap();
    let after = game.simulate_move(mv);
    assert_eq!(before, game.board.pieces);
    assert_eq!(0, game.moves.len());
    assert_eq!(1, after.moves.len());
    assert_eq!(Color::Black, after.current_color());
}

#[test]
fn legal_moves_never_target_own_piece() {
    let game = Game::new();
    for color in [Color::White, Color::Black] {
        for m in game.get_moves(color) {
            match game.board.check_square_for_piece(&m.target_square) {
                Some(p) => assert_ne!(color, p.color),
                None => {}
            }
        }
    }
}

#[test]
fn legal_moves_leave_king_safe() {
    let mut game = Game::new();
    game.move_from_str("e2-e4").unwrap();
    game.move_from_str("e7-e5").unwrap();
    game.move_from_str("d1-h5").unwrap();
    game.move_from_str("b8-c6").unwrap();
    game.move_from_str("f1-c4").unwrap();
    let color = game.current_color();
    let moves = game.get_moves(color);
    assert!(moves.len() > 0);
    for m in moves {
        assert_eq!(false, game.simulate_move(m).in_check_color(color));
    }
}

#[test]
fn move_text() {
    let game = Game::new();
    let pawn_move = game.generate_move_from_str("e2-e4").unwrap();
    assert_eq!("[e4]", pawn_move.to_str());
    let knight_move = game.generate_move_from_str("g1-f3").unwrap();
    assert_eq!("N[g1][f3]", knight_move.to_str());
}

use chessbot_lib::gamelogic::{board::ChessBoard, pieces::PieceType, GameEnd, MoveType, Side};

fn draw_reason(end: Option<GameEnd>) -> Option<String> {
    match end {
        Some(GameEnd::Draw(reason)) => Some(reason),
        _ => None,
    }
}

#[test]
fn insufficient_material_king_vs_king() {
    let board =
        ChessBoard::from_forsyth_edwards("4k3/8/8/8/8/8/8/4K3 w - - 0 0".to_string()).unwrap();
    assert_eq!(draw_reason(board.is_game_over(Side::White)), Some("Insufficient material".to_string()));
}

#[test]
fn insufficient_material_king_vs_king_and_bishop() {
    let board =
        ChessBoard::from_forsyth_edwards("4k3/8/8/8/8/8/8/4KB2 w - - 0 0".to_string()).unwrap();
    assert_eq!(draw_reason(board.is_game_over(Side::White)), Some("Insufficient material".to_string()));
}

#[test]
fn insufficient_material_king_vs_king_and_two_knights() {
    let board =
        ChessBoard::from_forsyth_edwards("4k3/8/8/8/8/8/8/3NKN2 w - - 0 0".to_string()).unwrap();
    assert_eq!(draw_reason(board.is_game_over(Side::White)), Some("Insufficient material".to_string()));
}

#[test]
fn insufficient_material_king_and_minor_each() {
    let board =
        ChessBoard::from_forsyth_edwards("4kb2/8/8/8/8/8/8/4KB2 w - - 0 0".to_string()).unwrap();
    assert_eq!(draw_reason(board.is_game_over(Side::White)), Some("Insufficient material".to_string()));
}

#[test]
fn king_and_rook_is_sufficient_material() {
    let board =
        ChessBoard::from_forsyth_edwards("4k3/8/8/8/8/8/8/4KR2 w - - 0 0".to_string()).unwrap();
    assert!(board.is_game_over(Side::White).is_none());
}

fn play(board: &mut ChessBoard, from: &str, to: (usize, usize)) {
    let piece = board.get_square_by_name(from.to_string()).unwrap().unwrap();
    let mv = piece.get_specific_move(board, to).unwrap();
    board.perform_move_and_record(&mv).unwrap();
}

#[test]
fn threefold_repetition_draws_twofold_does_not() {
    let mut board = ChessBoard::new();
    // knight shuffles recreate the starting position over and over
    for round in 0..3 {
        play(&mut board, "b1", (2, 2));
        play(&mut board, "b8", (2, 5));
        play(&mut board, "c3", (1, 0));
        play(&mut board, "c6", (1, 7));
        if round < 2 {
            // the starting position has now recurred fewer than 3 times
            assert!(board.is_game_over(Side::White).is_none());
        }
    }
    assert_eq!(draw_reason(board.is_game_over(Side::White)), Some("Draw by repetition".to_string()));
}

#[test]
fn checkmate_is_detected() {
    // a back-rank mate: Black to move, mated
    let board =
        ChessBoard::from_forsyth_edwards("R3k3/8/4K3/8/8/8/8/8 b - - 0 0".to_string()).unwrap();
    match board.is_game_over(Side::Black) {
        Some(GameEnd::WhiteVictory(reason)) => assert_eq!(reason, "Checkmate".to_string()),
        other => panic!("expected a White checkmate, found {:?}", other),
    }
}

#[test]
fn stalemate_is_detected() {
    // Black to move, not in check, no legal move
    let board =
        ChessBoard::from_forsyth_edwards("k7/8/1Q6/8/8/8/8/4K3 b - - 0 0".to_string()).unwrap();
    match board.is_game_over(Side::Black) {
        Some(GameEnd::Draw(reason)) => assert_eq!(reason, "Stalemate".to_string()),
        other => panic!("expected a stalemate, found {:?}", other),
    }
}

#[test]
fn pawn_promotes_to_queen() {
    let mut board =
        ChessBoard::from_forsyth_edwards("7k/P7/8/8/8/8/8/K7 w - - 0 0".to_string()).unwrap();
    let pawn = board.get_square_by_name("a7".to_string()).unwrap().unwrap();
    let mv = pawn.get_specific_move(&board, (0, 7)).unwrap();
    assert_eq!(mv.move_type, MoveType::Promotion);
    board.perform_move_and_record(&mv).unwrap();
    let promoted = board.get_square_by_name("a8".to_string()).unwrap().unwrap();
    assert_eq!(promoted.piece_type, PieceType::Queen);
}

#[test]
fn generated_en_passant_move_has_true_captured_square() {
    let mut board = ChessBoard::new();
    play(&mut board, "e2", (4, 3));
    play(&mut board, "a7", (0, 5));
    play(&mut board, "e4", (4, 4));
    // the double advance sets the en-passant column
    play(&mut board, "d7", (3, 4));
    assert_eq!(board.state.en_passant_column, Some(3));
    let pawn = board.get_square_by_name("e5".to_string()).unwrap().unwrap();
    let mv = pawn.get_specific_move(&board, (3, 5)).unwrap();
    assert_eq!(mv.move_type, MoveType::EnPassant);
    assert_eq!(mv.captures, Some((3, 4)));
    board.perform_move_and_record(&mv).unwrap();
    assert!(board.get_square_by_name("e5".to_string()).unwrap().is_none());
    assert!(board.get_square_by_name("d5".to_string()).unwrap().is_none());
    assert!(board.get_square_by_name("d6".to_string()).unwrap().is_some());
}

#[test]
fn material_totals_exclude_the_king() {
    let board = ChessBoard::new();
    // eight pawns, two rooks, two knights, two bishops and a queen
    assert_eq!(board.get_total_materials(Side::White), 39);
    assert_eq!(board.get_total_materials(Side::Black), 39);
    let kings =
        ChessBoard::from_forsyth_edwards("4k3/8/8/8/8/8/8/4K3 w - - 0 0".to_string()).unwrap();
    assert_eq!(kings.get_total_materials(Side::White), 0);
}

#[test]
fn moving_a_rook_clears_only_its_wing() {
    let mut board = ChessBoard::from_forsyth_edwards(
        "r3k2r/pppppppp/8/8/8/8/PPPPPPPP/R3K2R w KQkq - 0 0".to_string(),
    )
    .unwrap();
    play(&mut board, "h1", (6, 0));
    assert!(!board.state.white_castle_kingside);
    assert!(board.state.white_castle_queenside);
    assert!(board.state.black_castle_kingside);
    assert!(board.state.black_castle_queenside);
}

#[test]
fn serialized_fen_round_trips_through_the_parser() {
    let fen = "2r1kb1r/p1p1p1pp/2p1p3/3n2B1/2NP4/2P2P1b/PP3P1P/R3K2R w KQk - 0 0";
    let board = ChessBoard::from_forsyth_edwards(fen.to_string()).unwrap();
    assert_eq!(board.to_forsyth_edwards(), fen.to_string());
}

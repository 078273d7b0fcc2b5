use davbjor_chess::{ChessBoard, GameResult, PieceType, SQUARE};

#[test]
fn castling() {
    let mut chess = ChessBoard::new();
    let _ = chess.load("r3k2r/pppp1ppp/4p2b/8/8/B2P4/PPP1PPPP/R3K2R w KQkq - 0 1".to_string());

    // Cannot castle into check.
    assert!(chess.move_piece(SQUARE::E1, SQUARE::C1).is_err());
    assert!(chess.move_piece(SQUARE::E1, SQUARE::G1).is_ok());

    // Cannot castle through check.
    assert!(chess.move_piece(SQUARE::E8, SQUARE::G8).is_err());
    assert!(chess.move_piece(SQUARE::E8, SQUARE::C8).is_ok());
}

#[test]
fn white_in_stalemate() {
    let mut chess = ChessBoard::new();
    let _ = chess.load("k5rr/8/8/8/8/8/7p/7K w ---- - 0 1".to_string());

    assert_eq!(chess.game_result, GameResult::Draw);
}

#[test]
fn black_in_stalemate() {
    let mut chess = ChessBoard::new();
    let _ = chess.load("k7/8/8/8/8/8/5B2/1R5K b ---- - 0 1".to_string());

    assert_eq!(chess.game_result, GameResult::Draw);
}

#[test]
fn white_in_check() {
    let mut chess = ChessBoard::new();
    let _ = chess.load("2k5/8/4q3/8/6b1/1n6/1PPP4/3KR3".to_string());
    assert_eq!(chess.white_in_check(None, None), true);
    assert_eq!(chess.game_result, GameResult::Ongoing);

    let _ = chess.load("k6q/8/8/8/8/8/8/7K".to_string());
    assert_eq!(chess.white_in_check(None, None), true);
    assert_eq!(chess.game_result, GameResult::Ongoing);
}

/// A sacrificial check must not be taken for checkmate.
#[test]
fn checkmate_bug() {
    let mut chess = ChessBoard::new();

    assert!(chess.move_piece(SQUARE::E2, SQUARE::E4).is_ok());
    assert!(chess.move_piece(SQUARE::E7, SQUARE::E5).is_ok());
    assert!(chess.move_piece(SQUARE::F1, SQUARE::C4).is_ok());
    assert!(chess.move_piece(SQUARE::A7, SQUARE::A5).is_ok());
    assert!(chess.move_piece(SQUARE::C4, SQUARE::F7).is_ok());
    assert_eq!(chess.game_result, GameResult::Ongoing);
}

#[test]
fn en_passant() {
    let mut chess = ChessBoard::new();
    let _ = chess.load(
        "rnbqkbnr/1p3p1p/8/P1PpP1P1/p1p1p1pP/8/1P1P1P2/RNBQKBNR w KQkq d6 0 1".to_string(),
    );

    // White can capture en passant on d6 (the description records d6).
    assert!(chess.move_piece(SQUARE::E5, SQUARE::D6).is_ok());
    assert_eq!(chess.piece_at(SQUARE::D5), PieceType::Empty);

    // Black cannot capture en passant on h3 (that push was not last turn).
    assert!(chess.move_piece(SQUARE::G4, SQUARE::H3).is_err());
    assert_eq!(chess.piece_at(SQUARE::H4), PieceType::WhitePawn);

    // Move so that Black may capture en passant on b3.
    assert!(chess.move_piece(SQUARE::G4, SQUARE::G3).is_ok());
    assert!(chess.move_piece(SQUARE::B2, SQUARE::B4).is_ok());

    // Both the a4 and the c4 pawn could take on b3.
    assert!(chess.move_piece(SQUARE::A4, SQUARE::B3).is_ok());
    assert_eq!(chess.piece_at(SQUARE::B4), PieceType::Empty);
}

/// Counts moves in positions with possible promotions, then promotes.
#[test]
fn promotion() {
    let mut chess = ChessBoard::new();

    let _ = chess.load("3r3k/1p2P1pp/8/p7/8/5NK1/1qp3PP/8 w - - 0 39".to_string());
    assert_eq!(chess.count_moves(), 22);
    assert!(chess.handle_promotion(SQUARE::E7, SQUARE::D8, PieceType::WhiteQueen).is_ok());

    let _ = chess.load("8/pp3P1k/1npNp3/4P3/2PP1PR1/4K3/P1r5/7q w - - 1 38".to_string());
    assert_eq!(chess.count_moves(), 24);
    assert!(chess.handle_promotion(SQUARE::F7, SQUARE::F8, PieceType::WhiteKnight).is_ok());

    let _ = chess.load("8/pPr4k/6p1/8/1P5p/8/5PK1/8 w - - 0 37".to_string());
    assert_eq!(chess.count_moves(), 13);
    assert!(chess.handle_promotion(SQUARE::B7, SQUARE::B8, PieceType::WhiteQueen).is_ok());

    let _ = chess.load("r1bqr3/pp1n1Pkp/4p2b/3pP3/3N4/2NPBR2/PP4PP/R5K1 w - - 1 18".to_string());
    assert_eq!(chess.count_moves(), 51);
    assert!(chess.handle_promotion(SQUARE::F7, SQUARE::E8, PieceType::WhiteKnight).is_ok());

    let _ = chess.load("8/5QP1/2qp3k/4p3/8/6K1/4N3/1q6 w - - 0 60".to_string());
    println!("{}", chess.count_moves());
    assert!(chess.handle_promotion(SQUARE::G7, SQUARE::G8, PieceType::WhiteKnight).is_ok());
}

#[test]
fn three_fold_repetition() {
    let mut chess = ChessBoard::new();

    // Move pawns.
    assert!(chess.move_piece(SQUARE::E2, SQUARE::E4).is_ok());
    assert!(chess.move_piece(SQUARE::E7, SQUARE::E5).is_ok());

    // Begin to shuffle kings.
    assert!(chess.move_piece(SQUARE::E1, SQUARE::E2).is_ok());
    assert!(chess.move_piece(SQUARE::E8, SQUARE::E7).is_ok());
    // First time in the repeatable position, castling rights now gone.

    assert!(chess.move_piece(SQUARE::E2, SQUARE::E1).is_ok());
    assert!(chess.move_piece(SQUARE::E7, SQUARE::E8).is_ok());
    assert!(chess.move_piece(SQUARE::E1, SQUARE::E2).is_ok());
    assert!(chess.move_piece(SQUARE::E8, SQUARE::E7).is_ok());

    // Now repeated twice.
    assert!(chess.move_piece(SQUARE::E2, SQUARE::E1).is_ok());
    assert!(chess.move_piece(SQUARE::E7, SQUARE::E8).is_ok());
    assert!(chess.move_piece(SQUARE::E1, SQUARE::E2).is_ok());

    // The last one.
    assert!(chess.move_piece(SQUARE::E8, SQUARE::E7).is_ok());

    // No more moves are accepted.
    assert!(chess.move_piece(SQUARE::E8, SQUARE::E7).is_err());

    assert_eq!(chess.game_result, GameResult::Draw);
}

#[test]
fn fifty_move_rule() {
    let mut chess = ChessBoard::new();
    let _ = chess.load("k7/8/8/8/8/8/8/7K w ---- - 96 70".to_string());

    // Walk the kings.
    assert!(chess.move_piece(SQUARE::H1, SQUARE::H2).is_ok());
    assert!(chess.move_piece(SQUARE::A8, SQUARE::A7).is_ok());
    assert!(chess.move_piece(SQUARE::H2, SQUARE::H3).is_ok());
    assert!(chess.move_piece(SQUARE::A7, SQUARE::A6).is_ok());
    // One hundred half-moves reached.

    // No further move is accepted.
    assert!(chess.move_piece(SQUARE::H3, SQUARE::H4).is_err());

    assert_eq!(chess.game_result, GameResult::Draw);
}

/// The number of legal moves, checked against counts from another engine.
#[test]
fn count_legal_moves() {
    let mut chess = ChessBoard::new();

    let _ = chess.load("r3k2r/p1ppqpb1/bn2pnp1/3PN3/1p2P3/5Q2/PPPBBPpP/RN2K2R w KQkq - 0 2".to_string());
    assert_eq!(chess.count_moves(), 47);

    let _ = chess.load("1r6/3k2p1/7p/Ppp2r1P/K1N1B1p1/2P2NP1/b7/4b3 w - - 0 56".to_string());
    assert_eq!(chess.count_moves(), 1);

    let _ = chess.load("2r3r3/4n3/p1kp3p/1p3pP1/1p1bPPKP/1PPP4/BR1R4/8 w - - 0 73".to_string());
    assert_eq!(chess.count_moves(), 5);

    let _ = chess.load("7k/8/R5Q1/1BpP4/3K4/8/8/8 w - c6 0 0".to_string());
    assert_eq!(chess.count_moves(), 8);

    let _ = chess.load("3n4/2k5/p5pr/2pBP2P/PpN1KP2/1P6/8/6b1 w - - 0 32".to_string());
    assert_eq!(chess.count_moves(), 19);

    let _ = chess.load("8/6kp/1r2rR1B/4P3/p1p5/1bN2P2/1Pn2K2/8 b - - 1 39".to_string());
    assert_eq!(chess.count_moves(), 2);

    let _ = chess.load("5kr1/1r2p1b1/p2p1R2/3q1Q1p/5P2/4R2P/P5PK/8 b - - 0 41".to_string());
    assert_eq!(chess.count_moves(), 4);

    let _ = chess.load("5Qk1/1p2r1bp/3pN1p1/3pq3/2P1p3/1P5P/P5P1/5RK1 b - - 1 27".to_string());
    assert_eq!(chess.count_moves(), 1);

    let _ = chess.load("2r2rk1/6pp/p4nbN/1p1pq1Q1/4p3/7P/PPP1NPP1/R4RK1 b - - 8 25".to_string());
    assert_eq!(chess.count_moves(), 2);

    let _ = chess.load("2r3k1/4q3/p3prpp/1p1Q4/2pP3P/8/PP3PP1/1B2RRK1 b - - 0 24".to_string());
    assert_eq!(chess.count_moves(), 39);

    let _ = chess.load("3r2k1/pb3pp1/1p6/8/8/P4P2/3R1QPP/3q2K1 w - - 0 34".to_string());
    assert_eq!(chess.count_moves(), 3);
}

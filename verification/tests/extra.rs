use davbjor_chess::{
    bit_count, bit_scan, compute_king_attacks, compute_knight_attacks, compute_rook_attacks,
    string_to_square, ChessBoard, FenError, GameResult, MoveError, PieceType, SQUARE,
};

#[test]
fn twenty_opening_moves() {
    // The standard starting array gives White exactly twenty moves.
    let chess = ChessBoard::new();
    assert_eq!(chess.count_moves(), 20);
}

#[test]
fn reset_restores_the_start() {
    let mut chess = ChessBoard::new();
    assert!(chess.move_piece(SQUARE::E2, SQUARE::E4).is_ok());
    chess.reset();
    assert_eq!(chess.piece_at(SQUARE::E2), PieceType::WhitePawn);
    assert_eq!(chess.piece_at(SQUARE::E4), PieceType::Empty);
    assert_eq!(chess.count_moves(), 20);
    assert!(chess.whites_turn);
}

#[test]
fn starting_pieces() {
    let chess = ChessBoard::new();
    assert_eq!(chess.piece_at(SQUARE::A1), PieceType::WhiteRook);
    assert_eq!(chess.piece_at(SQUARE::B1), PieceType::WhiteKnight);
    assert_eq!(chess.piece_at(SQUARE::C1), PieceType::WhiteBishop);
    assert_eq!(chess.piece_at(SQUARE::D1), PieceType::WhiteQueen);
    assert_eq!(chess.piece_at(SQUARE::E1), PieceType::WhiteKing);
    assert_eq!(chess.piece_at(SQUARE::E7), PieceType::BlackPawn);
    assert_eq!(chess.piece_at(SQUARE::E8), PieceType::BlackKing);
    assert_eq!(chess.piece_at(SQUARE::E4), PieceType::Empty);
    assert_eq!(chess.board[7], PieceType::WhiteRook);
    // Out-of-range squares hold nothing.
    assert_eq!(chess.piece_at(64), PieceType::Empty);
}

#[test]
fn move_errors() {
    let mut chess = ChessBoard::new();
    // An empty source square.
    assert_eq!(chess.move_piece(SQUARE::E4, SQUARE::E5), Err(MoveError::NoPieceAtSource));
    assert_eq!(chess.move_piece(64, SQUARE::E5), Err(MoveError::NoPieceAtSource));
    // A rook boxed in on its home square has no move at all.
    assert_eq!(chess.move_piece(SQUARE::A1, SQUARE::A3), Err(MoveError::NoLegalMoves));
    // A pawn cannot jump three ranks.
    assert_eq!(chess.move_piece(SQUARE::E2, SQUARE::E5), Err(MoveError::IllegalDestination));
    assert_eq!(chess.move_piece(SQUARE::E2, 64), Err(MoveError::IllegalDestination));
    // Black may not start.
    assert_eq!(chess.move_piece(SQUARE::E7, SQUARE::E5), Err(MoveError::WrongSideToMove));
    // After an agreed draw nothing moves.
    chess.mutual_draw();
    assert_eq!(chess.game_result, GameResult::Draw);
    assert_eq!(chess.move_piece(SQUARE::E2, SQUARE::E4), Err(MoveError::GameAlreadyOver));
}

#[test]
fn surrender_ends_the_game() {
    let mut chess = ChessBoard::new();
    chess.white_surrender();
    assert_eq!(chess.game_result, GameResult::Black);

    let mut chess = ChessBoard::new();
    chess.black_surrender();
    assert_eq!(chess.game_result, GameResult::White);
}

#[test]
fn promotion_needs_a_choice() {
    let mut chess = ChessBoard::new();
    let _ = chess.load("8/pPr4k/6p1/8/1P5p/8/5PK1/8 w - - 0 37".to_string());
    // Without a chosen piece the move is held back and nothing changes.
    assert_eq!(chess.move_piece(SQUARE::B7, SQUARE::B8), Ok(false));
    assert_eq!(chess.piece_at(SQUARE::B7), PieceType::WhitePawn);
    // A king or a pawn is no promotion piece, nor is a black piece.
    assert_eq!(
        chess.handle_promotion(SQUARE::B7, SQUARE::B8, PieceType::WhiteKing),
        Err(MoveError::InvalidPromotionChoice)
    );
    assert_eq!(
        chess.handle_promotion(SQUARE::B7, SQUARE::B8, PieceType::WhitePawn),
        Err(MoveError::InvalidPromotionChoice)
    );
    assert_eq!(
        chess.handle_promotion(SQUARE::B7, SQUARE::B8, PieceType::BlackQueen),
        Err(MoveError::InvalidPromotionChoice)
    );
    // A proper choice completes the move.
    assert!(chess.handle_promotion(SQUARE::B7, SQUARE::B8, PieceType::WhiteQueen).is_ok());
    assert_eq!(chess.piece_at(SQUARE::B8), PieceType::WhiteQueen);
    assert_eq!(chess.piece_at(SQUARE::B7), PieceType::Empty);
}

#[test]
fn malformed_descriptions_are_rejected() {
    let mut chess = ChessBoard::new();
    // A rank of nine squares.
    assert_eq!(
        chess.load("9/8/8/8/8/8/8/8 w - - 0 1".to_string()),
        Err(FenError::MalformedPlacement)
    );
    // Seven ranks only.
    assert_eq!(chess.load("8/8/8/8/8/8/8 w - - 0 1".to_string()), Err(FenError::MalformedPlacement));
    // A letter that is no piece.
    assert_eq!(
        chess.load("x7/8/8/8/8/8/8/8 w - - 0 1".to_string()),
        Err(FenError::MalformedPlacement)
    );
    // An unknown side to move.
    assert_eq!(
        chess.load("k7/8/8/8/8/8/8/7K x - - 0 1".to_string()),
        Err(FenError::MalformedTurn)
    );
    // A stray castling character.
    assert_eq!(
        chess.load("k7/8/8/8/8/8/8/7K w Kx - 0 1".to_string()),
        Err(FenError::MalformedCastling)
    );
    // A nonsense en passant square.
    assert_eq!(
        chess.load("k7/8/8/8/8/8/8/7K w - z9 0 1".to_string()),
        Err(FenError::MalformedEnPassant)
    );
    // A rejected description leaves the old position standing.
    assert_eq!(chess.piece_at(SQUARE::E1), PieceType::WhiteKing);
    assert_eq!(chess.count_moves(), 20);
}

#[test]
fn unparsable_clocks_fall_back() {
    let mut chess = ChessBoard::new();
    assert!(chess.load("k7/8/8/8/8/8/8/7K w - - xyz abc".to_string()).is_ok());
    assert_eq!(chess.halfmove_clock, 0);
    assert_eq!(chess.fullmove, 1);
    assert!(chess.load("k7/8/8/8/8/8/8/7K b - - 12 34".to_string()).is_ok());
    assert_eq!(chess.halfmove_clock, 12);
    assert_eq!(chess.fullmove, 34);
    assert!(!chess.whites_turn);
}

#[test]
fn notation_to_square() {
    assert_eq!(string_to_square("a1".to_string()), 0);
    assert_eq!(string_to_square("A1".to_string()), 0);
    assert_eq!(string_to_square("h1".to_string()), 7);
    assert_eq!(string_to_square("e4".to_string()), 28);
    assert_eq!(string_to_square("h8".to_string()), 63);
    assert_eq!(string_to_square("z9".to_string()), 64);
    assert_eq!(string_to_square("e44".to_string()), 64);
    assert_eq!(string_to_square("".to_string()), 64);
}

#[test]
fn bit_primitives() {
    assert_eq!(bit_scan(0), 64);
    assert_eq!(bit_scan(1), 0);
    assert_eq!(bit_scan(1u64 << 37), 37);
    assert_eq!(bit_count(0), 0);
    assert_eq!(bit_count(u64::MAX), 64);
    assert_eq!(bit_count(0b1011), 3);
}

#[test]
fn king_attack_pattern() {
    // A king alone on e4 reaches its eight neighbours.
    let king: u64 = 1u64 << 28;
    let attacks = compute_king_attacks(king, king);
    let expected: u64 = (1u64 << 19) | (1u64 << 20) | (1u64 << 21) | (1u64 << 27) | (1u64 << 29)
        | (1u64 << 35) | (1u64 << 36) | (1u64 << 37);
    assert_eq!(attacks, expected);
    // In a corner only three squares remain.
    let corner: u64 = 1;
    let attacks = compute_king_attacks(corner, corner);
    assert_eq!(attacks, (1u64 << 1) | (1u64 << 8) | (1u64 << 9));
}

#[test]
fn knight_attack_pattern() {
    // A knight on b1 reaches a3, c3 and d2.
    let knight: u64 = 1u64 << 1;
    let attacks = compute_knight_attacks(knight, knight);
    assert_eq!(attacks, (1u64 << 16) | (1u64 << 18) | (1u64 << 11));
}

#[test]
fn rook_rays_stop_at_blockers() {
    // A rook on a1 with an enemy piece on a4 and an own piece on d1.
    let rook: u64 = 1;
    let enemy: u64 = 1u64 << 24;
    let own: u64 = 1u64 << 3;
    let all = rook | enemy | own;
    let attacks = compute_rook_attacks(rook, all, enemy);
    let expected: u64 = (1u64 << 8) | (1u64 << 16) | (1u64 << 24) | (1u64 << 1) | (1u64 << 2);
    assert_eq!(attacks, expected);
}

#[test]
fn moves_list_is_sorted() {
    let chess = ChessBoard::new();
    let moves = chess.get_moves_list(SQUARE::B1);
    assert_eq!(moves, vec![16, 18]);
    // The other side's pieces cannot be queried for moves on White's turn.
    let moves = chess.get_moves_list(SQUARE::B8);
    assert_eq!(moves.len(), 0);
    let moves = chess.get_moves_list(64);
    assert_eq!(moves.len(), 0);
}

#[test]
fn check_flag_follows_the_turn() {
    let mut chess = ChessBoard::new();
    assert!(!chess.player_in_check);
    assert!(chess.move_piece(SQUARE::E2, SQUARE::E4).is_ok());
    assert!(chess.move_piece(SQUARE::E7, SQUARE::E5).is_ok());
    assert!(chess.move_piece(SQUARE::D1, SQUARE::H5).is_ok());
    assert!(chess.move_piece(SQUARE::G7, SQUARE::G6).is_ok());
    assert!(chess.move_piece(SQUARE::H5, SQUARE::E5).is_ok());
    // Black now stands in check from the queen on e5.
    assert!(chess.player_in_check);
    assert!(chess.black_in_check(None, None));
}

#[test]
fn scholars_mate() {
    let mut chess = ChessBoard::new();
    assert!(chess.move_piece(SQUARE::E2, SQUARE::E4).is_ok());
    assert!(chess.move_piece(SQUARE::E7, SQUARE::E5).is_ok());
    assert!(chess.move_piece(SQUARE::D1, SQUARE::H5).is_ok());
    assert!(chess.move_piece(SQUARE::B8, SQUARE::C6).is_ok());
    assert!(chess.move_piece(SQUARE::F1, SQUARE::C4).is_ok());
    assert!(chess.move_piece(SQUARE::G8, SQUARE::F6).is_ok());
    assert!(chess.move_piece(SQUARE::H5, SQUARE::F7).is_ok());
    assert_eq!(chess.game_result, GameResult::White);
    assert!(chess.move_piece(SQUARE::E8, SQUARE::F7).is_err());
}

#[test]
fn halfmove_clock_resets_on_pawn_moves_and_captures() {
    let mut chess = ChessBoard::new();
    assert!(chess.move_piece(SQUARE::G1, SQUARE::F3).is_ok());
    assert_eq!(chess.halfmove_clock, 1);
    assert!(chess.move_piece(SQUARE::E7, SQUARE::E5).is_ok());
    assert_eq!(chess.halfmove_clock, 0);
    assert!(chess.move_piece(SQUARE::B1, SQUARE::C3).is_ok());
    assert_eq!(chess.halfmove_clock, 1);
    assert!(chess.move_piece(SQUARE::E5, SQUARE::E4).is_ok());
    assert_eq!(chess.halfmove_clock, 0);
    assert!(chess.move_piece(SQUARE::F3, SQUARE::E5).is_ok());
    assert_eq!(chess.halfmove_clock, 1);
    assert!(chess.move_piece(SQUARE::E4, SQUARE::E3).is_ok());
    assert!(chess.move_piece(SQUARE::E5, SQUARE::C6).is_ok());
    assert_eq!(chess.halfmove_clock, 1);
    assert!(chess.move_piece(SQUARE::E3, SQUARE::D2).is_ok());
    assert_eq!(chess.halfmove_clock, 0);
    assert_eq!(chess.fullmove, 5);
}

#[test]
fn rook_capture_revokes_castling() {
    // A knight takes the a8 rook: Black loses the queenside right the
    // moment the rook's home square is captured, while the kingside right
    // survives.
    let mut chess = ChessBoard::new();
    let _ = chess.load("r3k2r/8/1N6/8/8/8/8/4K2R w Kkq - 0 1".to_string());
    assert_eq!(chess.move_piece(SQUARE::B6, SQUARE::A8), Ok(true));
    assert_eq!(chess.move_piece(SQUARE::E8, SQUARE::C8), Err(MoveError::IllegalDestination));
    assert!(chess.move_piece(SQUARE::E8, SQUARE::G8).is_ok());
}

#[test]
fn occupancies_stay_disjoint() {
    // The colour occupancies never intersect and together form the full
    // occupancy, after any sequence of legal moves.
    let mut chess = ChessBoard::new();
    let moves = [
        (SQUARE::E2, SQUARE::E4),
        (SQUARE::D7, SQUARE::D5),
        (SQUARE::E4, SQUARE::D5),
        (SQUARE::D8, SQUARE::D5),
        (SQUARE::B1, SQUARE::C3),
        (SQUARE::D5, SQUARE::A5),
    ];
    for (from, to) in moves {
        assert_eq!(chess.move_piece(from, to), Ok(true));
        assert_eq!(chess.white_pieces & chess.black_pieces, 0);
        assert_eq!(chess.all_pieces, chess.white_pieces | chess.black_pieces);
    }
}

#[test]
fn side_attacks_mirror() {
    // Black's attacks in the colour-and-rank-flipped position are the
    // mirror image of White's attacks in the original.
    let mut original = ChessBoard::new();
    let _ = original.load(
        "r1bqkbnr/pppp1ppp/2n5/4p3/4P3/5N2/PPPP1PPP/RNBQKB1R w KQkq - 2 3".to_string(),
    );
    let mut flipped = ChessBoard::new();
    let _ = flipped.load(
        "rnbqkb1r/pppp1ppp/5n2/4p3/4P3/2N5/PPPP1PPP/R1BQKBNR b KQkq - 2 3".to_string(),
    );
    let white_attacks = original.compute_white_attacks(None, None);
    let black_attacks = flipped.compute_black_attacks(None, None);
    for i in 0..64usize {
        let mirrored = (7 - i / 8) * 8 + i % 8;
        assert_eq!(
            (white_attacks >> i) & 1,
            (black_attacks >> mirrored) & 1,
            "square {i}"
        );
    }
}

use chess::board::GameStatus;
use chess::board::Square;
use chess::board::StatusType;
use chess::pieces::Piece;
use chess::pieces::PieceColor;
use chess::pieces::PieceType;

fn sq(file: u8, rank: u8) -> Square {
    Square { file, rank }
}

fn piece(color: PieceColor, piece_type: PieceType, file: u8, rank: u8) -> Piece {
    Piece { color, piece_type, has_moved: false, pos: sq(file, rank) }
}

fn moved_piece(color: PieceColor, piece_type: PieceType, file: u8, rank: u8) -> Piece {
    Piece { color, piece_type, has_moved: true, pos: sq(file, rank) }
}

fn find_at(game: &GameStatus, file: u8, rank: u8) -> Option<Piece> {
    game.pieces.iter().copied().find(|p| p.pos == sq(file, rank))
}

#[test]
fn fresh_game_has_standard_layout() {
    let game = GameStatus::default();
    assert_eq!(game.pieces.len(), 32);
    assert_eq!(game.color, PieceColor::White);
    assert_eq!(game.status_type, StatusType::Move);
    let white_king = find_at(&game, 4, 0).unwrap();
    assert_eq!(white_king.piece_type, PieceType::King);
    assert_eq!(white_king.color, PieceColor::White);
    assert!(!white_king.has_moved);
    let black_queen = find_at(&game, 3, 7).unwrap();
    assert_eq!(black_queen.piece_type, PieceType::Queen);
    assert_eq!(black_queen.color, PieceColor::Black);
    let pawns = game.pieces.iter().filter(|p| p.piece_type == PieceType::Pawn).count();
    assert_eq!(pawns, 16);
    for p in &game.pieces {
        assert!(p.pos.file < 8 && p.pos.rank < 8);
        assert!(!p.has_moved);
    }
}

#[test]
fn first_pawn_move_is_accepted() {
    let mut game = GameStatus::default();
    let pawn = find_at(&game, 4, 1).unwrap();
    assert!(game.attempt_move(pawn, sq(4, 3)));
    assert_eq!(game.color, PieceColor::Black);
    assert_eq!(game.status_type, StatusType::Move);
    assert_eq!(game.pieces.len(), 32);
    let moved = find_at(&game, 4, 3).unwrap();
    assert_eq!(moved.piece_type, PieceType::Pawn);
    assert!(moved.has_moved);
    assert!(find_at(&game, 4, 1).is_none());
}

#[test]
fn wrong_color_is_rejected() {
    let mut game = GameStatus::default();
    let black_pawn = find_at(&game, 4, 6).unwrap();
    assert_eq!(black_pawn.color, PieceColor::Black);
    assert!(!game.attempt_move(black_pawn, sq(4, 4)));
    // nothing changed
    assert_eq!(game.color, PieceColor::White);
    assert_eq!(game.status_type, StatusType::Move);
    assert_eq!(game.pieces.len(), 32);
    assert!(find_at(&game, 4, 6).is_some());
    assert!(find_at(&game, 4, 4).is_none());
}

#[test]
fn illegal_geometry_is_rejected() {
    let mut game = GameStatus::default();
    let rook = find_at(&game, 0, 0).unwrap();
    assert_eq!(rook.piece_type, PieceType::Rook);
    // the rook stands behind its own pawn
    assert!(!game.attempt_move(rook, sq(0, 4)));
    assert_eq!(game.color, PieceColor::White);
    assert!(find_at(&game, 0, 0).is_some());
}

#[test]
fn pinned_piece_must_not_move() {
    // the rook shields its king from the queen on the same file
    let king = piece(PieceColor::White, PieceType::King, 4, 0);
    let rook = moved_piece(PieceColor::White, PieceType::Rook, 4, 1);
    let queen = moved_piece(PieceColor::Black, PieceType::Queen, 4, 7);
    let black_king = piece(PieceColor::Black, PieceType::King, 0, 7);
    let mut game = GameStatus {
        pieces: vec![king, rook, queen, black_king],
        color: PieceColor::White,
        status_type: StatusType::Move,
    };
    // the sideways rook move is fine by geometry alone
    assert!(rook.is_move_valid(sq(0, 1), &game.pieces));
    // but the coordinator rejects it: it would expose the king
    assert!(!game.attempt_move(rook, sq(0, 1)));
    assert_eq!(game.color, PieceColor::White);
    assert_eq!(game.pieces, vec![king, rook, queen, black_king]);
    // moving along the pin line stays accepted
    assert!(game.attempt_move(rook, sq(4, 5)));
    assert_eq!(game.color, PieceColor::Black);
}

#[test]
fn kingside_castle_moves_both_pieces() {
    let king = piece(PieceColor::White, PieceType::King, 4, 0);
    let rook = piece(PieceColor::White, PieceType::Rook, 7, 0);
    let black_king = piece(PieceColor::Black, PieceType::King, 4, 7);
    let mut game = GameStatus {
        pieces: vec![king, rook, black_king],
        color: PieceColor::White,
        status_type: StatusType::Move,
    };
    assert!(king.is_move_valid(sq(6, 0), &game.pieces));
    assert!(game.attempt_move(king, sq(6, 0)));
    let new_king = find_at(&game, 6, 0).unwrap();
    assert_eq!(new_king.piece_type, PieceType::King);
    assert!(new_king.has_moved);
    let new_rook = find_at(&game, 5, 0).unwrap();
    assert_eq!(new_rook.piece_type, PieceType::Rook);
    assert!(new_rook.has_moved);
    assert!(find_at(&game, 4, 0).is_none());
    assert!(find_at(&game, 7, 0).is_none());
    assert_eq!(game.color, PieceColor::Black);
    assert_eq!(game.pieces.len(), 3);
}

#[test]
fn queenside_castle_moves_both_pieces() {
    let king = piece(PieceColor::White, PieceType::King, 4, 0);
    let rook = piece(PieceColor::White, PieceType::Rook, 0, 0);
    let black_king = piece(PieceColor::Black, PieceType::King, 4, 7);
    let mut game = GameStatus {
        pieces: vec![king, rook, black_king],
        color: PieceColor::White,
        status_type: StatusType::Move,
    };
    assert!(game.attempt_move(king, sq(2, 0)));
    assert!(find_at(&game, 2, 0).unwrap().piece_type == PieceType::King);
    let new_rook = find_at(&game, 3, 0).unwrap();
    assert_eq!(new_rook.piece_type, PieceType::Rook);
    assert!(new_rook.has_moved);
    assert!(find_at(&game, 0, 0).is_none());
}

#[test]
fn black_castle_mirrors_white() {
    let white_king = piece(PieceColor::White, PieceType::King, 4, 0);
    let black_king = piece(PieceColor::Black, PieceType::King, 4, 7);
    let black_rook = piece(PieceColor::Black, PieceType::Rook, 7, 7);
    let mut game = GameStatus {
        pieces: vec![white_king, black_king, black_rook],
        color: PieceColor::Black,
        status_type: StatusType::Move,
    };
    assert!(game.attempt_move(black_king, sq(6, 7)));
    assert_eq!(find_at(&game, 6, 7).unwrap().piece_type, PieceType::King);
    let new_rook = find_at(&game, 5, 7).unwrap();
    assert_eq!(new_rook.piece_type, PieceType::Rook);
    assert!(new_rook.has_moved);
    assert_eq!(game.color, PieceColor::White);
}

#[test]
fn castle_refused_when_kings_path_is_occupied() {
    // an unmoved rook standing right beside the king leaves nothing
    // strictly between the two, but it occupies the square the king
    // passes through: the castle is refused
    let king = piece(PieceColor::White, PieceType::King, 4, 0);
    let near_rook = piece(PieceColor::White, PieceType::Rook, 5, 0);
    let pieces = vec![king, near_rook];
    assert!(!king.is_move_valid(sq(6, 0), &pieces));
    // and the king's destination must be empty too: no capture by castling
    let victim = moved_piece(PieceColor::Black, PieceType::Knight, 6, 0);
    let with_victim = vec![king, near_rook, victim];
    assert!(!king.is_move_valid(sq(6, 0), &with_victim));
}

#[test]
fn castle_refused_through_an_attacked_square() {
    let king = piece(PieceColor::White, PieceType::King, 4, 0);
    let rook = piece(PieceColor::White, PieceType::Rook, 7, 0);
    let attacker = moved_piece(PieceColor::Black, PieceType::Rook, 5, 7);
    let black_king = piece(PieceColor::Black, PieceType::King, 0, 7);
    let mut game = GameStatus {
        pieces: vec![king, rook, attacker, black_king],
        color: PieceColor::White,
        status_type: StatusType::Move,
    };
    // geometry alone accepts the castle: the path and both squares are free
    assert!(king.is_move_valid(sq(6, 0), &game.pieces));
    // the coordinator rejects it: the king would pass through an attacked square
    assert!(!game.attempt_move(king, sq(6, 0)));
    assert_eq!(game.color, PieceColor::White);
    assert_eq!(game.status_type, StatusType::Move);
    assert_eq!(game.pieces.len(), 4);
    assert!(find_at(&game, 4, 0).is_some());
    assert!(find_at(&game, 7, 0).is_some());
}

#[test]
fn castle_refused_onto_an_attacked_square() {
    let king = piece(PieceColor::White, PieceType::King, 4, 0);
    let rook = piece(PieceColor::White, PieceType::Rook, 7, 0);
    let attacker = moved_piece(PieceColor::Black, PieceType::Rook, 6, 7);
    let black_king = piece(PieceColor::Black, PieceType::King, 0, 7);
    let mut game = GameStatus {
        pieces: vec![king, rook, attacker, black_king],
        color: PieceColor::White,
        status_type: StatusType::Move,
    };
    assert!(!game.attempt_move(king, sq(6, 0)));
    assert_eq!(game.color, PieceColor::White);
    assert!(find_at(&game, 4, 0).is_some());
}

#[test]
fn castle_out_of_check_is_allowed() {
    // the rules name only the king's transit and destination squares:
    // a king already in check may castle out of it
    let king = piece(PieceColor::White, PieceType::King, 4, 0);
    let rook = piece(PieceColor::White, PieceType::Rook, 7, 0);
    let attacker = moved_piece(PieceColor::Black, PieceType::Rook, 4, 7);
    let black_king = piece(PieceColor::Black, PieceType::King, 0, 6);
    let mut game = GameStatus {
        pieces: vec![king, rook, attacker, black_king],
        color: PieceColor::White,
        status_type: StatusType::Move,
    };
    assert!(game.attempt_move(king, sq(6, 0)));
    assert_eq!(find_at(&game, 6, 0).unwrap().piece_type, PieceType::King);
    assert_eq!(find_at(&game, 5, 0).unwrap().piece_type, PieceType::Rook);
    assert_eq!(game.color, PieceColor::Black);
}

#[test]
fn castle_refused_through_blockers_or_after_moving() {
    let king = piece(PieceColor::White, PieceType::King, 4, 0);
    let rook = piece(PieceColor::White, PieceType::Rook, 7, 0);
    let bishop = piece(PieceColor::White, PieceType::Bishop, 5, 0);
    let blocked = vec![king, rook, bishop];
    assert!(!king.is_move_valid(sq(6, 0), &blocked));
    let veteran_king = moved_piece(PieceColor::White, PieceType::King, 4, 0);
    let seasoned = vec![veteran_king, rook];
    assert!(!veteran_king.is_move_valid(sq(6, 0), &seasoned));
    let veteran_rook = moved_piece(PieceColor::White, PieceType::Rook, 7, 0);
    let tired = vec![king, veteran_rook];
    assert!(!king.is_move_valid(sq(6, 0), &tired));
}

#[test]
fn capture_removes_the_taken_piece() {
    let king = piece(PieceColor::White, PieceType::King, 4, 0);
    let rook = moved_piece(PieceColor::White, PieceType::Rook, 0, 0);
    let victim = moved_piece(PieceColor::Black, PieceType::Knight, 0, 5);
    let black_king = piece(PieceColor::Black, PieceType::King, 7, 7);
    let mut game = GameStatus {
        pieces: vec![king, rook, victim, black_king],
        color: PieceColor::White,
        status_type: StatusType::Move,
    };
    assert!(game.attempt_move(rook, sq(0, 5)));
    assert_eq!(game.pieces.len(), 3);
    let taker = find_at(&game, 0, 5).unwrap();
    assert_eq!(taker.piece_type, PieceType::Rook);
    assert_eq!(taker.color, PieceColor::White);
    assert_eq!(game.color, PieceColor::Black);
}

#[test]
fn mating_move_wins_the_game() {
    // the rook swings to the corner file and mates the cornered king
    let white_king = moved_piece(PieceColor::White, PieceType::King, 2, 6);
    let white_rook = moved_piece(PieceColor::White, PieceType::Rook, 5, 0);
    let black_king = moved_piece(PieceColor::Black, PieceType::King, 0, 7);
    let mut game = GameStatus {
        pieces: vec![white_king, white_rook, black_king],
        color: PieceColor::White,
        status_type: StatusType::Move,
    };
    assert!(game.attempt_move(white_rook, sq(0, 0)));
    assert_eq!(game.status_type, StatusType::Win);
    // the winner's colour is kept
    assert_eq!(game.color, PieceColor::White);
    // a finished game accepts no further move
    let king_now = find_at(&game, 0, 7).unwrap();
    assert!(!game.attempt_move(king_now, sq(1, 6)));
    assert_eq!(game.status_type, StatusType::Win);
    assert_eq!(game.pieces.len(), 3);
}

#[test]
fn check_evasion_keeps_the_game_running() {
    // the same pieces, but the king has room: check, no mate
    let white_king = moved_piece(PieceColor::White, PieceType::King, 4, 4);
    let white_rook = moved_piece(PieceColor::White, PieceType::Rook, 5, 0);
    let black_king = moved_piece(PieceColor::Black, PieceType::King, 0, 7);
    let mut game = GameStatus {
        pieces: vec![white_king, white_rook, black_king],
        color: PieceColor::White,
        status_type: StatusType::Move,
    };
    assert!(game.attempt_move(white_rook, sq(0, 0)));
    assert_eq!(game.status_type, StatusType::Move);
    assert_eq!(game.color, PieceColor::Black);
    // the king steps out of the rook's file
    let king_now = find_at(&game, 0, 7).unwrap();
    assert!(game.attempt_move(king_now, sq(1, 6)));
    assert_eq!(game.status_type, StatusType::Move);
    assert_eq!(game.color, PieceColor::White);
}

#[test]
fn update_flips_turn_or_declares_the_win() {
    let mut running = GameStatus::default();
    let opening = running.pieces.clone();
    running.update(&opening);
    assert_eq!(running.color, PieceColor::Black);
    assert_eq!(running.status_type, StatusType::Move);

    // Black has just delivered a back-rank mate against White
    let mated = vec![
        piece(PieceColor::White, PieceType::King, 0, 0),
        moved_piece(PieceColor::Black, PieceType::Rook, 0, 7),
        moved_piece(PieceColor::Black, PieceType::Queen, 1, 7),
        piece(PieceColor::Black, PieceType::King, 7, 7),
    ];
    let mut won = GameStatus {
        pieces: mated.clone(),
        color: PieceColor::Black,
        status_type: StatusType::Move,
    };
    won.update(&mated);
    assert_eq!(won.status_type, StatusType::Win);
    assert_eq!(won.color, PieceColor::Black);
}

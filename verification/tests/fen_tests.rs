use fen_codec::board::GameState;
use fen_codec::codec::FenError;
use fen_codec::codec::square_number_from_str;
use fen_codec::piece::{Color, Piece};

const START_FEN: &str = "rnbqkbnr/pppppppp/8/8/8/8/PPPPPPPP/RNBQKBNR w KQkq - 0 1";

#[test]
fn board_state() {
    let game_state = GameState::default();
    assert_eq!(
        "rnbqkbnr/pppppppp/8/8/8/8/PPPPPPPP/RNBQKBNR w KQkq - 0 1",
        game_state.to_fen()
    );
}

#[test]
fn board_from_fen() {
    let game_state = GameState::default();
    let default_fen = "rnbqkbnr/pppppppp/8/8/8/8/PPPPPPPP/RNBQKBNR w KQkq - 0 1";
    let actual = GameState::from_fen(default_fen);
    assert!(!actual.is_err());
    assert_eq!(game_state, actual.unwrap());
}

#[test]
fn start_round_trip() {
    let start = GameState::default();
    let text = start.to_fen();
    let back = GameState::from_fen(&text).unwrap();
    assert_eq!(start, back);
}

#[test]
fn piece_index_bijection() {
    for i in 0..12 {
        let p = Piece::from_index(i).expect("index below twelve");
        assert_eq!(p.index(), i);
    }
    assert!(Piece::from_index(12).is_none());
    let pieces = [
        Piece::Pawn(Color::White),
        Piece::Pawn(Color::Black),
        Piece::Knight(Color::White),
        Piece::Knight(Color::Black),
        Piece::Bishop(Color::White),
        Piece::Bishop(Color::Black),
        Piece::Rook(Color::White),
        Piece::Rook(Color::Black),
        Piece::Queen(Color::White),
        Piece::Queen(Color::Black),
        Piece::King(Color::White),
        Piece::King(Color::Black),
    ];
    for p in pieces {
        assert_eq!(Piece::from_index(p.index()), Some(p));
    }
}

#[test]
fn piece_letters() {
    assert_eq!(Piece::Pawn(Color::White).fen(), "P");
    assert_eq!(Piece::Pawn(Color::Black).fen(), "p");
    assert_eq!(Piece::Knight(Color::White).fen(), "N");
    assert_eq!(Piece::King(Color::Black).fen(), "k");
    assert_eq!(Piece::from_char('Q'), Some(Piece::Queen(Color::White)));
    assert_eq!(Piece::from_char('x'), None);
}

#[test]
fn grid_matches_bitboards() {
    let start = GameState::default();
    let grid = start.get_board_state();
    for rank in 0..8 {
        for file in 0..8 {
            let square = rank * 8 + (7 - file);
            let mut found = None;
            for i in 0..12 {
                let piece = Piece::from_index(i).unwrap();
                if (*start.get_bitboard(piece) >> square) & 1 == 1 {
                    assert!(found.is_none(), "two boards claim one square");
                    found = Some(piece);
                }
            }
            assert_eq!(start.get_piece_at(rank, file), found);
            assert_eq!(grid[rank][file], found);
        }
    }
}

#[test]
fn start_position_lookup() {
    let start = GameState::default();
    // Column 0 is the "a" side: a1 holds the white rook, e1 the white king.
    assert_eq!(start.get_piece_at(0, 0), Some(Piece::Rook(Color::White)));
    assert_eq!(start.get_piece_at(0, 4), Some(Piece::King(Color::White)));
    assert_eq!(start.get_piece_at(0, 3), Some(Piece::Queen(Color::White)));
    assert_eq!(start.get_piece_at(1, 5), Some(Piece::Pawn(Color::White)));
    assert_eq!(start.get_piece_at(4, 4), None);
    assert_eq!(start.get_piece_at(7, 1), Some(Piece::Knight(Color::Black)));
    assert_eq!(start.get_piece_at(6, 6), Some(Piece::Pawn(Color::Black)));
}

#[test]
fn castling_round_trip_all_sixteen() {
    let letters = ['K', 'Q', 'k', 'q'];
    for bits in 0..16u32 {
        let mut field = String::new();
        for (i, letter) in letters.iter().enumerate() {
            if bits & (1 << i) != 0 {
                field.push(*letter);
            }
        }
        if field.is_empty() {
            field.push('-');
        }
        let text = format!("8/8/8/8/8/8/8/8 w {field} - 0 1");
        let parsed = GameState::from_fen(&text).unwrap();
        for (i, _) in letters.iter().enumerate() {
            assert_eq!(parsed.castling_rights[i], bits & (1 << i) != 0);
        }
        let back = GameState::from_fen(&parsed.to_fen()).unwrap();
        assert_eq!(parsed.castling_rights, back.castling_rights);
    }
    let none = GameState::from_fen("8/8/8/8/8/8/8/8 w - - 0 1").unwrap();
    assert_eq!(none.castling_rights, [false; 4]);
    assert!(none.to_fen().contains(" - "));
}

#[test]
fn en_passant_round_trip_every_square() {
    for square in 0u8..64 {
        let letter = (b'a' + square / 8) as char;
        let digit = (b'1' + square % 8) as char;
        let token: String = [letter, digit].iter().collect();
        assert_eq!(square_number_from_str(&token), Some(square));
    }
    assert_eq!(square_number_from_str("-"), None);
    assert_eq!(square_number_from_str("i1"), None);
    assert_eq!(square_number_from_str("a9"), None);
    assert_eq!(square_number_from_str("a"), None);
}

#[test]
fn en_passant_field_round_trip() {
    let text = "8/8/8/8/8/8/8/8 b KQ c5 12 34";
    let parsed = GameState::from_fen(text).unwrap();
    assert_eq!(parsed.en_passant_target, Some(2 * 8 + 4));
    assert_eq!(parsed.to_fen(), text);
}

#[test]
fn empty_board_round_trip() {
    let text = "8/8/8/8/8/8/8/8 w - - 0 1";
    let parsed = GameState::from_fen(text).unwrap();
    for i in 0..12 {
        let piece = Piece::from_index(i).unwrap();
        assert_eq!(*parsed.get_bitboard(piece), 0);
    }
    assert_eq!(parsed.active_color, Color::White);
    assert_eq!(parsed.castling_rights, [false; 4]);
    assert_eq!(parsed.en_passant_target, None);
    assert_eq!(parsed.half_move_clock, 0);
    assert_eq!(parsed.full_move_number, 1);
    assert_eq!(parsed.to_fen(), text);
}

#[test]
fn missing_fields_is_an_error() {
    let result = GameState::from_fen("8/8/8/8/8/8/8/8 w - -");
    assert_eq!(result, Err(FenError::MissingField));
    assert_eq!(
        GameState::from_fen("").unwrap_err(),
        FenError::MissingField
    );
}

#[test]
fn malformed_placement_is_an_error() {
    assert_eq!(
        GameState::from_fen("x7/8/8/8/8/8/8/8 w - - 0 1"),
        Err(FenError::MalformedPlacement)
    );
    // A digit that runs past the eighth column.
    assert_eq!(
        GameState::from_fen("9/8/8/8/8/8/8/8 w - - 0 1"),
        Err(FenError::MalformedPlacement)
    );
    // A ninth piece in one rank group.
    assert_eq!(
        GameState::from_fen("8/8/8/8/8/8/8/PPPPPPPPP w - - 0 1"),
        Err(FenError::MalformedPlacement)
    );
    // Nine rank groups.
    assert_eq!(
        GameState::from_fen("8/8/8/8/8/8/8/8/8 w - - 0 1"),
        Err(FenError::MalformedPlacement)
    );
}

#[test]
fn malformed_en_passant_is_an_error() {
    assert_eq!(
        GameState::from_fen("8/8/8/8/8/8/8/8 w - z9 0 1"),
        Err(FenError::MalformedEnPassant)
    );
}

#[test]
fn malformed_number_is_an_error() {
    assert_eq!(
        GameState::from_fen("8/8/8/8/8/8/8/8 w - - abc 1"),
        Err(FenError::MalformedNumber)
    );
    assert_eq!(
        GameState::from_fen("8/8/8/8/8/8/8/8 w - - 0 999"),
        Err(FenError::MalformedNumber)
    );
    assert_eq!(
        GameState::from_fen("8/8/8/8/8/8/8/8 w - - 0 "),
        Err(FenError::MalformedNumber)
    );
}

#[test]
fn error_messages_name_the_field() {
    assert_eq!(FenError::MissingField.message(), "not enough fields");
    assert_eq!(
        FenError::MalformedPlacement.message(),
        "malformed piece placement"
    );
    assert_eq!(
        FenError::MalformedEnPassant.message(),
        "malformed en-passant target"
    );
    assert_eq!(FenError::MalformedNumber.message(), "malformed move counter");
}

#[test]
fn counters_round_trip() {
    let text = "8/8/8/8/8/8/8/8 b - - 37 142";
    let parsed = GameState::from_fen(text).unwrap();
    assert_eq!(parsed.half_move_clock, 37);
    assert_eq!(parsed.full_move_number, 142);
    assert_eq!(parsed.to_fen(), text);
}

#[test]
fn extra_fields_are_ignored() {
    let with_extra = format!("{START_FEN} extra trailing");
    let parsed = GameState::from_fen(&with_extra).unwrap();
    assert_eq!(parsed, GameState::default());
}

#[test]
fn black_to_move() {
    let text = "rnbqkbnr/pppppppp/8/8/8/8/PPPPPPPP/RNBQKBNR b KQkq - 0 1";
    let parsed = GameState::from_fen(text).unwrap();
    assert_eq!(parsed.active_color, Color::Black);
    assert_eq!(parsed.to_fen(), text);
}

#[test]
fn mid_game_position_round_trip() {
    // After 1. e4: a pawn two squares up, en-passant behind it recorded in
    // this codec's own square token form.
    let text = "rnbqkbnr/pppppppp/8/8/4P3/8/PPPP1PPP/RNBQKBNR b KQkq c4 0 1";
    let parsed = GameState::from_fen(text).unwrap();
    assert_eq!(parsed.to_fen(), text);
    let pawn_board = *parsed.get_bitboard(Piece::Pawn(Color::White));
    // The e-file pawn stands on square 3*8 + (7-4) = 27.
    assert_eq!(pawn_board & (1 << 27), 1 << 27);
    assert_eq!((pawn_board >> 11) & 1, 0);
}

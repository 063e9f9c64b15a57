use chess::cli::{parse_uci, Controller, GameConfig};
use chess::game::GameState;
use chess::position::Position;
use chess::types::{Color, Move, MoveFlag, Piece};
use chess::uci::{
    get_labeled, get_labeled_int, go_millis, move_text_fits, move_to_uci, parse_uci_move, position_base,
    position_moves, PositionBase,
};
use chess::validate::fen_valid;
use chess::web::{ChessEngine, ChessMove};

const GO: [&str; 7] = ["go", "movetime", "wtime", "btime", "winc", "binc", "movestogo"];
const POS: [&str; 3] = ["position", "fen", "moves"];

#[test]
fn labeled_value_stops_at_the_next_label() {
    let cmd = "position fen 8/8/8/8/8/8/8/K1k5 w - - 0 1 moves a1a2 c1c2";
    assert_eq!(get_labeled(cmd, "fen", &POS), "8/8/8/8/8/8/8/K1k5 w - - 0 1");
    assert_eq!(get_labeled(cmd, "moves", &POS), "a1a2 c1c2");
    assert_eq!(get_labeled(cmd, "depth", &POS), "");
}

#[test]
fn labeled_value_runs_to_the_end() {
    assert_eq!(get_labeled("  go wtime 1000   ", "wtime", &GO), "1000");
    assert_eq!(get_labeled("position startpos", "moves", &POS), "");
}

#[test]
fn labeled_int_reads_the_first_field() {
    let cmd = "go wtime 30000 btime 29000 winc 100 binc 200";
    assert_eq!(get_labeled_int(cmd, "wtime", &GO, 0), 30000);
    assert_eq!(get_labeled_int(cmd, "btime", &GO, 0), 29000);
    assert_eq!(get_labeled_int(cmd, "binc", &GO, 0), 200);
    assert_eq!(get_labeled_int(cmd, "movestogo", &GO, 7), 7);
    assert_eq!(get_labeled_int("go movetime x", "movetime", &GO, 500), 500);
    assert_eq!(get_labeled_int("go movetime -5", "movetime", &GO, 500), -5);
    assert_eq!(get_labeled_int("go movetime +5", "movetime", &GO, 500), 5);
    assert_eq!(get_labeled_int("go movetime 99999999999", "movetime", &GO, 500), 500);
}

#[test]
fn think_time_from_the_clock() {
    assert_eq!(go_millis("go movetime 1234", Color::White), 1234);
    assert_eq!(go_millis("go wtime 30000 btime 60000 winc 100 binc 50", Color::White), 1100);
    assert_eq!(go_millis("go wtime 30000 btime 60000 winc 100 binc 50", Color::Black), 2050);
    assert_eq!(go_millis("go", Color::White), 10);
    assert_eq!(go_millis("go wtime 100", Color::White), 10);
}

#[test]
fn uci_move_round_trip() {
    let mut pos = Position::new();
    let mv = parse_uci_move(&mut pos, "g1f3").unwrap();
    assert_eq!(mv, Move { from: 6, to: 21, promotion: None, flag: MoveFlag::Quiet });
    assert_eq!(move_to_uci(mv), "g1f3");
    assert_eq!(parse_uci_move(&mut pos, "e2e5"), None);
    assert_eq!(parse_uci_move(&mut pos, "e2"), None);
    let mut pos = Position::from_fen("7k/P7/8/8/8/8/8/4K3 w - - 0 1");
    let mv = parse_uci_move(&mut pos, "a7a8r").unwrap();
    assert_eq!(mv.promotion, Some(Piece::Rook));
    assert_eq!(move_to_uci(mv), "a7a8r");
}

#[test]
fn move_text_must_fit() {
    assert!(move_text_fits("e2e4"));
    assert!(move_text_fits("e2"));
    assert!(!move_text_fits("A2e4"));
    assert!(!move_text_fits("e0e4"));
}

#[test]
fn position_command_parts() {
    assert!(matches!(position_base("position startpos moves e2e4"), PositionBase::Start));
    assert!(matches!(position_base("position STARTPOS"), PositionBase::Start));
    match position_base("position fen 4k3/8/8/8/8/8/8/4K3 w - - 0 1 moves e1e2") {
        PositionBase::Fen(f) => assert_eq!(f, "4k3/8/8/8/8/8/8/4K3 w - - 0 1"),
        _ => panic!("expected a FEN"),
    }
    assert!(matches!(position_base("position"), PositionBase::Unchanged));
    assert_eq!(position_moves("position startpos moves e2e4 e7e5"), vec!["e2e4".to_string(), "e7e5".to_string()]);
    assert!(position_moves("position startpos").is_empty());
}

#[test]
fn typed_moves_get_their_flags() {
    let gs = GameState::new();
    let mv = parse_uci("e2e4", &gs).unwrap();
    assert_eq!(mv.flag, MoveFlag::DoublePawnPush);
    let mv = parse_uci("e2e3", &gs).unwrap();
    assert_eq!(mv.flag, MoveFlag::Quiet);
    assert_eq!(parse_uci("e7e5", &gs), None);
    assert_eq!(parse_uci("e3e4", &gs), None);
    assert_eq!(parse_uci("i2i4", &gs), None);
    assert_eq!(parse_uci("e2e4x", &gs), None);
    let gs = GameState::from_fen("r3k2r/8/8/8/8/8/8/R3K2R w KQkq - 0 1");
    assert_eq!(parse_uci("e1g1", &gs).unwrap().flag, MoveFlag::KingCastle);
    assert_eq!(parse_uci("e1c1", &gs).unwrap().flag, MoveFlag::QueenCastle);
    assert_eq!(parse_uci("a1a8", &gs).unwrap().flag, MoveFlag::Capture);
    let gs = GameState::from_fen("1r5k/P7/8/8/8/8/8/4K3 w - - 0 1");
    let mv = parse_uci("a7b8q", &gs).unwrap();
    assert_eq!(mv.flag, MoveFlag::PromotionCapture);
    assert_eq!(mv.promotion, Some(Piece::Queen));
    assert_eq!(parse_uci("a7a8", &gs).unwrap().flag, MoveFlag::Promotion);
    let gs = GameState::from_fen("4k3/8/8/3pP3/8/8/8/4K3 w - d6 0 1");
    assert_eq!(parse_uci("e5d6", &gs).unwrap().flag, MoveFlag::EnPassant);
}

#[test]
fn controllers() {
    let mut config = GameConfig { white: Controller::Human, black: Controller::Bot(chess::bot::Bot::with_depth(1)) };
    assert!(!config.is_bot(Color::White));
    assert!(config.is_bot(Color::Black));
    assert!(config.for_color(Color::Black).is_bot());
    assert!(!config.for_color(Color::White).is_bot());
}

#[test]
fn fen_validity() {
    assert!(fen_valid("startpos"));
    assert!(fen_valid("rnbqkbnr/pppppppp/8/8/8/8/PPPPPPPP/RNBQKBNR w KQkq - 0 1"));
    assert!(fen_valid("4k3/8/8/8/8/8/8/4K3 b - e3 x y"));
    assert!(!fen_valid("rnbqkbnr/pppppppp/8/8/8/8/PPPPPPPP/RNBQKBNR w KQkq -"));
    assert!(!fen_valid("rnbqkbnr/pppppppp/8/8/8/8/PPPPPPPP/RNBQ1BNR w KQkq - 0 1"));
    assert!(!fen_valid("rnbqkbnr/pppppppp/8/8/8/8/PPPPPPPP/RNBQKBNX w KQkq - 0 1"));
    assert!(!fen_valid("rnbqkbnr/pppppppp/8/8/8/8/PPPPPPPP/RNBQKBNR x KQkq - 0 1"));
    assert!(!fen_valid("rnbqkbnr/pppppppp/8/8/8/8/PPPPPPPP/RNBQKBNR w KQkz - 0 1"));
    assert!(!fen_valid("rnbqkbnr/pppppppp/8/8/8/8/PPPPPPPP/RNBQKBNR w KQkq 3 0 1"));
    assert!(!fen_valid("rnbqkbnrr/pppppppp/8/8/8/8/PPPPPPPP/RNBQKBNR w KQkq - 0 1"));
}

#[test]
fn soundness_check() {
    assert!(Position::new().is_sound());
    assert!(Position::from_fen("4k3/8/8/8/8/8/8/4K3 w - - 0 1").is_sound());
    // The side not to move is in check.
    assert!(!Position::from_fen("4k3/8/8/8/8/8/8/4R2K w - - 0 1").is_sound());
    // Two white kings.
    assert!(!Position::from_fen("4k3/8/8/8/8/8/8/K3K3 w - - 0 1").is_sound());
    // Castling rights without the king at home.
    assert!(!Position::from_fen("4k3/8/8/8/8/8/8/3K4 w K - 0 1").is_sound());
    // An en passant square without the pawn that passed.
    assert!(!Position::from_fen("4k3/8/8/8/8/8/8/4K3 b - e3 0 1").is_sound());
    assert!(Position::from_fen("4k3/8/8/8/4P3/8/8/4K3 b - e3 0 1").is_sound());
}

#[test]
fn web_engine_answers() {
    let mut engine = ChessEngine::new();
    assert_eq!(engine.game_result(), "ongoing");
    assert_eq!(engine.side_to_move(), "w");
    assert_eq!(engine.piece_on(4), Some("wK".to_string()));
    assert_eq!(engine.piece_on(59), Some("bQ".to_string()));
    assert_eq!(engine.piece_on(27), None);
    assert_eq!(engine.king_square("w"), Some(4));
    assert_eq!(engine.king_square("b"), Some(60));
    assert_eq!(engine.king_square("x"), None);
    assert!(!engine.is_in_check());
    assert_eq!(engine.legal_moves().len(), 20);
    let mv = engine.parse_uci("e2e4").unwrap();
    assert_eq!(mv.from_sq(), 12);
    assert_eq!(mv.to_sq(), 28);
    assert!(mv.is_double_pawn_push());
    assert!(!mv.is_capture());
    assert_eq!(mv.to_uci(), "e2e4");
    assert_eq!(engine.make_move(&mv), Ok(()));
    assert_eq!(engine.side_to_move(), "b");
    engine.undo_move();
    assert_eq!(engine.side_to_move(), "w");
    let bad = ChessMove(Move { from: 12, to: 36, promotion: None, flag: MoveFlag::Quiet });
    assert_eq!(engine.make_move(&bad), Err("Illegal Move"));
}

#[test]
fn web_moves_describe_themselves() {
    let m = ChessMove(Move { from: 52, to: 60, promotion: Some(Piece::Knight), flag: MoveFlag::PromotionCapture });
    assert!(m.is_capture());
    assert!(m.is_promotion());
    assert_eq!(m.promotion_piece(), Some("n".to_string()));
    assert_eq!(m.to_uci(), "e7e8n");
    let c = ChessMove(Move { from: 4, to: 2, promotion: None, flag: MoveFlag::QueenCastle });
    assert!(c.is_castle());
    assert!(c.is_queenside_castle());
    assert!(!c.is_kingside_castle());
    assert_eq!(c.promotion_piece(), None);
    let e = ChessMove(Move { from: 36, to: 43, promotion: None, flag: MoveFlag::EnPassant });
    assert!(e.is_en_passant());
    assert!(e.is_capture());
}

#[test]
fn web_engine_reports_mate() {
    let mut engine = ChessEngine::from_fen("rnbqkbnr/pppp1ppp/8/4p3/6P1/5P2/PPPPP2P/RNBQKBNR b KQkq - 0 2");
    let mv = engine.parse_uci("d8h4").unwrap();
    assert_eq!(engine.make_move(&mv), Ok(()));
    assert_eq!(engine.game_result(), "checkmate_black");
    assert!(engine.is_in_check());
}

#[test]
fn every_legal_move_reads_back_from_its_text() {
    for fen in [
        "r3k2r/p1ppqpb1/bn2pnp1/3PN3/1p2P3/2N2Q1p/PPPBBPPP/R3K2R w KQkq - 0 1",
        "8/P1k5/8/8/8/8/5Kp1/8 w - - 0 1",
        "4k3/8/8/3pP3/8/8/8/4K3 w - d6 0 1",
    ] {
        let mut pos = Position::from_fen(fen);
        let moves = pos.get_legal_moves();
        assert!(!moves.is_empty());
        for mv in moves {
            let text = move_to_uci(mv);
            assert_eq!(parse_uci_move(&mut pos, &text), Some(mv), "{}", text);
        }
    }
}

#[test]
fn written_fen_reads_back() {
    let mut gs = GameState::new();
    for text in ["e2e4", "c7c5", "g1f3", "d7d6", "f1b5", "c8d7"] {
        let mv = parse_uci_move(&mut gs.position, text).unwrap();
        gs.make_move(mv).unwrap();
    }
    let fen = gs.position.to_fen();
    let back = Position::from_fen(&fen);
    assert_eq!(back.to_fen(), fen);
    assert_eq!(back.zobrist_hash(), gs.position.zobrist_hash());
}

#[test]
fn board_display() {
    let gs = GameState::new();
    let text = chess::cli::position_text(&gs);
    let lines: Vec<&str> = text.lines().collect();
    assert_eq!(lines[0], "  +------------------------+");
    assert_eq!(lines[1], "8 | r  n  b  q  k  b  n  r |");
    assert_eq!(lines[4], "5 | .  .  .  .  .  .  .  . |");
    assert_eq!(lines[8], "1 | R  N  B  Q  K  B  N  R |");
    assert_eq!(lines[9], "  +------------------------+");
    assert_eq!(lines[10], "    a  b  c  d  e  f  g  h");
    assert_eq!(lines[11], "");
    assert_eq!(lines[12], "Side to move: White");
    assert_eq!(lines[13], "Castling: KQkq");
    assert_eq!(lines[14], "En passant: -");
    assert_eq!(lines[15], "Game result: Ongoing");
}

#[test]
fn board_display_lights_a_king_in_check() {
    let mut gs = GameState::new();
    for text in ["f2f3", "e7e5", "g2g4", "d8h4"] {
        let mv = parse_uci_move(&mut gs.position, text).unwrap();
        gs.make_move(mv).unwrap();
    }
    let text = chess::cli::position_text(&gs);
    let lines: Vec<&str> = text.lines().collect();
    assert_eq!(lines[8], "1 | R  N  B  Q  \u{1b}[41m\u{1b}[97mK\u{1b}[0m  B  N  R |");
    assert_eq!(lines[15], "Game result: Checkmate(Black)");
    assert_eq!(lines[13], "Castling: KQkq");
}

#[test]
fn opening_book_reads_entries() {
    let data = "junk before\npos rnbqkbnr/pppppppp/8/8/8/8/PPPPPPPP/RNBQKBNR w KQkq -\r\ne2e4 30\nd2d4 12\nbad\nc2c4 x\n\
pos rnbqkbnr/pppppppp/8/8/4P3/8/PPPP1PPP/RNBQKBNR b KQkq e3\nc7c5 5\npos empty/8 w - -\nnothing here\n\
pos rnbqkbnr/pppppppp/8/8/8/8/PPPPPPPP/RNBQKBNR w KQkq -\ng1f3 7\n";
    let book = chess::book::parse_book(data, 1);
    assert_eq!(book.positions.len(), 2);
    let key = chess::book::book_key("rnbqkbnr/pppppppp/8/8/8/8/PPPPPPPP/RNBQKBNR w KQkq - 0 1");
    assert_eq!(key, "rnbqkbnr/pppppppp/8/8/8/8/PPPPPPPP/RNBQKBNR w KQkq -");
    let moves = book.lookup(&key).unwrap();
    assert_eq!(moves, &vec![("g1f3".to_string(), 7)]);
    let moves = book.lookup("rnbqkbnr/pppppppp/8/8/4P3/8/PPPP1PPP/RNBQKBNR b KQkq e3").unwrap();
    assert_eq!(moves, &vec![("c7c5".to_string(), 5)]);
    assert!(book.lookup("empty/8 w - -").is_none());
    assert_eq!(book.rng.state, 1);
}

#[test]
fn book_key_of_short_text() {
    assert_eq!(chess::book::book_key("a b"), "a b");
    assert_eq!(chess::book::book_key("a b c d e f"), "a b c d");
}

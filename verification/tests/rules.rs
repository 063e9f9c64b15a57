use chess::game::GameState;
use chess::perft::perft;
use chess::position::Position;
use chess::types::{Color, GameResult, Move, MoveFlag, Piece};
use chess::uci::parse_uci_move;

const START_FEN: &str = "rnbqkbnr/pppppppp/8/8/8/8/PPPPPPPP/RNBQKBNR w KQkq - 0 1";
const KIWIPETE: &str = "r3k2r/p1ppqpb1/bn2pnp1/3PN3/1p2P3/2N2Q1p/PPPBBPPP/R3K2R w KQkq - 0 1";

fn play(gs: &mut GameState, text: &str) -> Result<(), String> {
    let mv = parse_uci_move(&mut gs.position, text).ok_or_else(|| format!("no move {}", text))?;
    gs.make_move(mv).map_err(|e| e.to_string())
}

#[test]
fn start_position_writes_standard_fen() {
    let gs = GameState::new();
    assert_eq!(gs.position.to_fen(), START_FEN);
}

#[test]
fn fen_round_trips() {
    for fen in [
        START_FEN,
        KIWIPETE,
        "8/2p5/3p4/KP5r/1R3p1k/8/4P1P1/8 w - - 0 1",
        "rnbqkbnr/pppp1ppp/8/4p3/4P3/8/PPPP1PPP/RNBQKBNR w KQkq e6 0 2",
        "4k3/8/8/8/8/8/8/4K3 b - - 12 40",
    ] {
        let pos = Position::from_fen(fen);
        assert_eq!(pos.to_fen(), fen);
    }
}

#[test]
fn startpos_word_reads_the_start() {
    let pos = Position::from_fen("startpos");
    assert_eq!(pos.to_fen(), START_FEN);
}

#[test]
fn unreadable_clocks_default() {
    let pos = Position::from_fen("4k3/8/8/8/8/8/8/4K3 w - - x y");
    assert_eq!(pos.halfmove_clock, 0);
    assert_eq!(pos.fullmove_count, 1);
}

#[test]
fn kiwipete_counts() {
    let mut gs = GameState::from_fen(KIWIPETE);
    assert_eq!(perft(&mut gs, 1), 48);
    assert_eq!(perft(&mut gs, 2), 2039);
}

#[test]
fn endgame_position_counts() {
    let mut gs = GameState::from_fen("8/2p5/3p4/KP5r/1R3p1k/8/4P1P1/8 w - - 0 1");
    assert_eq!(perft(&mut gs, 1), 14);
    assert_eq!(perft(&mut gs, 2), 191);
    assert_eq!(perft(&mut gs, 3), 2812);
}

#[test]
fn perft_leaves_the_position() {
    let mut gs = GameState::from_fen(KIWIPETE);
    let before = gs.position.to_fen();
    perft(&mut gs, 2);
    assert_eq!(gs.position.to_fen(), before);
}

#[test]
fn make_then_undo_restores_the_game() {
    let mut gs = GameState::new();
    let before = gs.position.to_fen();
    let hash = gs.position.zobrist_hash();
    play(&mut gs, "e2e4").unwrap();
    play(&mut gs, "e7e5").unwrap();
    play(&mut gs, "g1f3").unwrap();
    assert_eq!(gs.history.len(), 3);
    gs.undo_move();
    gs.undo_move();
    gs.undo_move();
    assert_eq!(gs.history.len(), 0);
    assert_eq!(gs.position.to_fen(), before);
    assert_eq!(gs.position.zobrist_hash(), hash);
    assert_eq!(gs.result, GameResult::Ongoing);
    assert_eq!(gs.repetition_table.get(&hash), Some(&1));
}

#[test]
fn position_make_undo_restores_board() {
    let mut pos = Position::from_fen(KIWIPETE);
    let before = pos.to_fen();
    let hash = pos.zobrist_hash();
    for mv in pos.clone().get_legal_moves() {
        let undo = pos.make_move(mv);
        pos.undo_move(mv, undo);
        assert_eq!(pos.to_fen(), before);
        assert_eq!(pos.zobrist_hash(), hash);
    }
}

#[test]
fn double_push_sets_en_passant() {
    let mut gs = GameState::new();
    play(&mut gs, "e2e4").unwrap();
    assert_eq!(gs.position.en_passant, Some(20));
    assert_eq!(gs.position.side_to_move, Color::Black);
    assert_eq!(gs.position.to_fen(), "rnbqkbnr/pppppppp/8/8/4P3/8/PPPP1PPP/RNBQKBNR b KQkq e3 0 1");
}

#[test]
fn fools_mate_is_checkmate() {
    let mut gs = GameState::new();
    play(&mut gs, "f2f3").unwrap();
    play(&mut gs, "e7e5").unwrap();
    play(&mut gs, "g2g4").unwrap();
    play(&mut gs, "d8h4").unwrap();
    assert_eq!(gs.result, GameResult::Checkmate(Color::Black));
    assert!(gs.position.is_in_check(Color::White));
    let mv = Move { from: 12, to: 28, promotion: None, flag: MoveFlag::DoublePawnPush };
    assert_eq!(gs.make_move(mv), Err("Game already finished"));
}

#[test]
fn illegal_move_is_refused() {
    let mut gs = GameState::new();
    let mv = Move { from: 12, to: 36, promotion: None, flag: MoveFlag::Quiet };
    assert_eq!(gs.make_move(mv), Err("Illegal Move"));
    assert_eq!(gs.history.len(), 0);
    assert_eq!(gs.position.to_fen(), START_FEN);
}

#[test]
fn stalemate_is_detected() {
    let mut gs = GameState::from_fen("k7/8/2Q5/8/8/8/8/7K w - - 0 1");
    play(&mut gs, "c6b6").unwrap();
    assert_eq!(gs.result, GameResult::Stalemate);
}

#[test]
fn bare_kings_are_a_draw() {
    let mut gs = GameState::from_fen("4k3/8/8/8/8/8/3q4/4K3 w - - 0 1");
    play(&mut gs, "e1d2").unwrap();
    assert_eq!(gs.result, GameResult::DrawInsufficientMaterial);
}

#[test]
fn fifty_moves_are_a_draw() {
    let mut gs = GameState::from_fen("4k3/8/8/8/8/8/8/R3K3 w - - 99 80");
    play(&mut gs, "a1a2").unwrap();
    assert_eq!(gs.result, GameResult::DrawFiftyMove);
}

#[test]
fn threefold_repetition_is_a_draw() {
    let mut gs = GameState::new();
    for _ in 0..2 {
        play(&mut gs, "g1f3").unwrap();
        play(&mut gs, "g8f6").unwrap();
        play(&mut gs, "f3g1").unwrap();
        play(&mut gs, "f6g8").unwrap();
    }
    assert_eq!(gs.result, GameResult::DrawRepetition);
}

#[test]
fn castling_moves_the_rook() {
    let mut gs = GameState::from_fen(KIWIPETE);
    play(&mut gs, "e1g1").unwrap();
    assert_eq!(gs.position.piece_on(6), Some((Color::White, Piece::King)));
    assert_eq!(gs.position.piece_on(5), Some((Color::White, Piece::Rook)));
    assert_eq!(gs.position.piece_on(7), None);
    assert_eq!(gs.position.castling_rights & 0b0011, 0);
}

#[test]
fn promotion_makes_the_piece() {
    let mut gs = GameState::from_fen("7k/P7/8/8/8/8/8/4K3 w - - 0 1");
    play(&mut gs, "a7a8n").unwrap();
    assert_eq!(gs.position.piece_on(56), Some((Color::White, Piece::Knight)));
}

#[test]
fn en_passant_captures_the_pawn() {
    let mut gs = GameState::from_fen("4k3/8/8/3pP3/8/8/8/4K3 w - d6 0 1");
    play(&mut gs, "e5d6").unwrap();
    assert_eq!(gs.position.piece_on(35), None);
    assert_eq!(gs.position.piece_on(43), Some((Color::White, Piece::Pawn)));
}

#[test]
fn opposite_swaps_colors() {
    assert_eq!(Color::White.opposite(), Color::Black);
    assert_eq!(Color::Black.opposite(), Color::White);
}

#[test]
fn taking_back_a_black_move_restores_the_fen() {
    let fen = "rnbqkbnr/pppppppp/8/8/4P3/8/PPPP1PPP/RNBQKBNR b KQkq e3 0 1";
    let mut pos = Position::from_fen(fen);
    let mv = Move { from: 52, to: 36, promotion: None, flag: MoveFlag::DoublePawnPush };
    let undo = pos.make_move(mv);
    assert!(pos.to_fen().ends_with(" 0 2"));
    pos.undo_move(mv, undo);
    assert_eq!(pos.to_fen(), fen);
    assert_eq!(pos.get_legal_moves().len(), 20);
    assert_eq!(pos.to_fen(), fen);
}

#[test]
fn undo_after_mate_reopens_the_game() {
    let mut gs = GameState::new();
    for m in ["f2f3", "e7e5", "g2g4", "d8h4"] {
        play(&mut gs, m).unwrap();
    }
    assert_eq!(gs.result, GameResult::Checkmate(Color::Black));
    gs.undo_move();
    assert_eq!(gs.result, GameResult::Ongoing);
    assert_eq!(gs.position.to_fen(), "rnbqkbnr/pppp1ppp/8/4p3/6P1/5P2/PPPPP2P/RNBQKBNR b KQkq g3 0 2");
}

#[test]
fn repetition_counts_the_starting_fen() {
    let mut gs = GameState::from_fen("rnbqkbnr/pppppppp/8/8/8/8/PPPPPPPP/RNBQKBNR w KQkq - 0 1");
    for _ in 0..2 {
        for m in ["g1f3", "g8f6", "f3g1", "f6g8"] {
            play(&mut gs, m).unwrap();
        }
    }
    assert_eq!(gs.result, GameResult::DrawRepetition);
}

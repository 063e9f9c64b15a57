use chess::game::GameState;
use chess::gauntlet::random::seed_from_nanos;
use chess::types::{Color, GameResult, Move};

const MATE_IN_ONE: &str = "k7/8/1K6/8/8/8/8/7Q w - - 0 1";
const MATED: &str = "k7/1Q6/1K6/8/8/8/8/8 b - - 0 1";
const STALEMATED: &str = "k7/8/1Q6/8/8/8/8/7K b - - 0 1";
const HANGING_QUEEN: &str = "4k3/8/8/3q4/8/8/3R4/4K3 w - - 0 1";

fn mates(fen: &str, mv: Move) -> bool {
    let mut gs = GameState::from_fen(fen);
    gs.make_move(mv).is_ok() && gs.result == GameResult::Checkmate(Color::White)
}

fn is_legal(fen: &str, mv: Move) -> bool {
    let mut gs = GameState::from_fen(fen);
    gs.position.get_legal_moves().contains(&mv)
}

#[test]
fn random_bot_plays_a_legal_move() {
    let mut bot = chess::gauntlet::random::Bot::new();
    for fen in [MATE_IN_ONE, HANGING_QUEEN, "rnbqkbnr/pppppppp/8/8/8/8/PPPPPPPP/RNBQKBNR w KQkq - 0 1"] {
        let mut gs = GameState::from_fen(fen);
        let mv = bot.best_move(&mut gs).unwrap();
        assert!(is_legal(fen, mv));
    }
    let mut gs = GameState::from_fen(MATED);
    assert_eq!(bot.best_move(&mut gs), None);
}

#[test]
fn negamax_bot_finds_mate() {
    let mut bot = chess::gauntlet::negamax::Bot::with_depth(2);
    let mut gs = GameState::from_fen(MATE_IN_ONE);
    let mv = bot.best_move(&mut gs).unwrap();
    assert!(mates(MATE_IN_ONE, mv));
    let mut gs = GameState::from_fen(STALEMATED);
    assert_eq!(bot.best_move(&mut gs), None);
}

#[test]
fn negamax_bot_takes_the_queen() {
    let mut bot = chess::gauntlet::negamax::Bot::with_depth(1);
    let mut gs = GameState::from_fen(HANGING_QUEEN);
    let mv = bot.best_move(&mut gs).unwrap();
    assert_eq!((mv.from, mv.to), (11, 35));
}

#[test]
fn negamax_values() {
    let mut gs = GameState::from_fen(MATE_IN_ONE);
    assert_eq!(chess::gauntlet::negamax::negamax(&mut gs.position, 0), 900);
    assert_eq!(chess::gauntlet::negamax::negamax(&mut gs.position, 2), 1_000_000);
}

#[test]
fn iterative_deepening_bot_finds_mate() {
    let mut bot = chess::gauntlet::v4_iterative_deepening::Bot::with_depth(2);
    let mut gs = GameState::from_fen(MATE_IN_ONE);
    let mv = bot.best_move(&mut gs).unwrap();
    assert!(mates(MATE_IN_ONE, mv));
    let mut gs = GameState::from_fen(MATED);
    assert_eq!(bot.best_move(&mut gs), None);
}

#[test]
fn move_ordering_bot_finds_mate() {
    let mut bot = chess::gauntlet::v5_move_ordering::Bot::with_depth(2);
    let mut gs = GameState::from_fen(MATE_IN_ONE);
    let mv = bot.best_move(&mut gs).unwrap();
    assert!(mates(MATE_IN_ONE, mv));
    let mut gs = GameState::from_fen(HANGING_QUEEN);
    let mv = bot.best_move(&mut gs).unwrap();
    assert_eq!((mv.from, mv.to), (11, 35));
}

#[test]
fn transposition_table_bot_finds_mate() {
    let mut bot = chess::gauntlet::v6_transposition_table::Bot::with_depth(2);
    let mut gs = GameState::from_fen(MATE_IN_ONE);
    let mv = bot.best_move(&mut gs).unwrap();
    assert!(mates(MATE_IN_ONE, mv));
    let mut gs = GameState::from_fen(HANGING_QUEEN);
    let mv = bot.best_move(&mut gs).unwrap();
    assert_eq!((mv.from, mv.to), (11, 35));
}

#[test]
fn quiescence_bot_finds_mate() {
    let mut bot = chess::gauntlet::v7_quiescence_search::Bot::with_depth(2);
    let mut gs = GameState::from_fen(MATE_IN_ONE);
    let mv = bot.best_move(&mut gs).unwrap();
    assert!(mates(MATE_IN_ONE, mv));
    let mut gs = GameState::from_fen(HANGING_QUEEN);
    let mv = bot.best_move(&mut gs).unwrap();
    assert_eq!((mv.from, mv.to), (11, 35));
}

#[test]
fn engine_bot_finds_mate() {
    let mut bot = chess::bot::Bot::with_depth(3);
    let mut gs = GameState::from_fen(MATE_IN_ONE);
    let mv = bot.best_move(&mut gs).unwrap();
    assert!(mates(MATE_IN_ONE, mv));
    let mut gs = GameState::from_fen(MATED);
    assert_eq!(bot.best_move(&mut gs), None);
}

#[test]
fn engine_bot_takes_the_queen() {
    let mut bot = chess::bot::Bot::with_depth(3);
    let mut gs = GameState::from_fen(HANGING_QUEEN);
    let mv = bot.best_move(&mut gs).unwrap();
    assert_eq!((mv.from, mv.to), (11, 35));
}

#[test]
fn bots_leave_the_game_alone() {
    let fen = "r3k2r/p1ppqpb1/bn2pnp1/3PN3/1p2P3/2N2Q1p/PPPBBPPP/R3K2R w KQkq - 0 1";
    let mut gs = GameState::from_fen(fen);
    let mut bot = chess::gauntlet::v7_quiescence_search::Bot::with_depth(2);
    let mv = bot.best_move(&mut gs).unwrap();
    assert!(is_legal(fen, mv));
    let after: Vec<String> = gs.position.to_fen().split_whitespace().take(5).map(|s| s.to_string()).collect();
    let before: Vec<String> = fen.split_whitespace().take(5).map(|s| s.to_string()).collect();
    assert_eq!(after, before);
    assert_eq!(gs.result, GameResult::Ongoing);
}

#[test]
fn clock_seed_keeps_low_bits() {
    assert_eq!(seed_from_nanos(Some((5u128 << 64) | 1234)), 1234);
    assert_eq!(seed_from_nanos(Some(987_654_321)), 987_654_321);
    assert_eq!(seed_from_nanos(None), 0xDEADBEEF);
}

fn far_deadline() -> web_time::Instant {
    web_time::Instant::now() + std::time::Duration::from_secs(3600)
}

#[test]
fn quiescence_stands_on_a_quiet_position() {
    let mut bot = chess::bot::Bot::with_depth(4);
    let mut gs = GameState::from_fen("rnbqkbnr/pppppppp/8/8/8/8/PPPPPPPP/RNBQKBNR w KQkq - 0 1");
    let e = chess::eval::evaluate(&gs.position);
    assert_eq!(bot.quiescence(&mut gs.position, 0, -1000, 1000, far_deadline()), e);
    assert_eq!(bot.quiescence(&mut gs.position, 0, e - 20, e - 10, far_deadline()), e - 10);
    assert_eq!(bot.quiescence(&mut gs.position, 0, e + 10, e + 20, far_deadline()), e + 10);
}

#[test]
fn material_quiescence_takes_the_hanging_queen() {
    let mut bot = chess::gauntlet::v7_quiescence_search::Bot::with_depth(2);
    let mut gs = GameState::from_fen(HANGING_QUEEN);
    assert_eq!(bot.quiescence(&mut gs.position, 0, -10_000, 10_000, far_deadline()), 500);
    let mut gs = GameState::from_fen(MATED);
    assert_eq!(bot.quiescence(&mut gs.position, 0, -10_000, 10_000, far_deadline()), -1_000_000);
}

#[test]
fn table_search_at_depth_zero_is_the_material_balance() {
    let mut bot = chess::gauntlet::v6_transposition_table::Bot::with_depth(2);
    let mut gs = GameState::from_fen(HANGING_QUEEN);
    assert_eq!(bot.negamax(&mut gs.position, 0, 0, -10_000, 10_000, far_deadline()), -400);
    assert_eq!(bot.negamax(&mut gs.position, 1, 0, -10_000, 10_000, far_deadline()), 500);
}

#[test]
fn engine_search_scores_a_mate_in_a_wide_window() {
    let mut bot = chess::bot::Bot::with_depth(3);
    let mut gs = GameState::from_fen(MATED);
    let r = bot.negamax(&mut gs.position, 2, 0, -2_000_000_000, 2_000_000_000, true, far_deadline());
    assert_eq!(r, -1_000_000);
}

#[test]
fn move_ordering_scores_on_new_tables() {
    let bot = chess::gauntlet::v5_move_ordering::Bot::new();
    let gs = GameState::from_fen("4k3/8/8/3q4/4P3/8/8/3QK3 w - - 0 1");
    let pxq = Move { from: 28, to: 35, promotion: None, flag: chess::types::MoveFlag::Capture };
    let qxq = Move { from: 3, to: 35, promotion: None, flag: chess::types::MoveFlag::Capture };
    let king = Move { from: 4, to: 12, promotion: None, flag: chess::types::MoveFlag::Quiet };
    assert_eq!(bot.score_move(&gs.position, pxq, 0), 10_800);
    assert_eq!(bot.score_move(&gs.position, qxq, 0), 10_000);
    assert_eq!(bot.score_move(&gs.position, king, 0), 0);
}

#[test]
fn finished_game_refuses_moves() {
    let mut gs = GameState::from_fen(MATED);
    let mv = Move { from: 56, to: 57, promotion: None, flag: chess::types::MoveFlag::Quiet };
    gs.result = GameResult::Checkmate(Color::White);
    assert_eq!(gs.make_move(mv), Err("Game already finished"));
    assert_eq!(gs.history.len(), 0);
}

#[test]
fn deepening_search_takes_any_window() {
    let mut gs = GameState::from_fen(HANGING_QUEEN);
    let wide = chess::gauntlet::v4_iterative_deepening::negamax(&mut gs.position, 1, -2_000_000_000, 2_000_000_000, far_deadline());
    assert_eq!(wide, 500);
    let narrow = chess::gauntlet::v4_iterative_deepening::negamax(&mut gs.position, 1, 0, 100, far_deadline());
    assert_eq!(narrow, 100);
    let below = chess::gauntlet::v4_iterative_deepening::negamax(&mut gs.position, 1, 600, 700, far_deadline());
    assert_eq!(below, 600);
}

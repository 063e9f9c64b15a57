use chess::bot::build_lmr_table;
use chess::eval::{evaluate, evaluate_material, game_phase};
use chess::game::GameState;
use chess::position::Position;
use chess::see::see;
use chess::types::{Move, MoveFlag, Piece};
use chess::uci::parse_uci_move;

#[test]
fn start_position_is_level() {
    let pos = Position::new();
    assert_eq!(evaluate(&pos), 0);
    assert_eq!(evaluate_material(&pos), 0);
    assert_eq!(game_phase(&pos), 24);
}

#[test]
fn king_pawn_opening_scores_for_white() {
    let mut gs = GameState::new();
    let mv = parse_uci_move(&mut gs.position, "e2e4").unwrap();
    gs.make_move(mv).unwrap();
    // The pawn moves from -20 to +20 on the middlegame table; Black is to move.
    assert_eq!(evaluate(&gs.position), -40);
    assert_eq!(evaluate_material(&gs.position), 0);
}

#[test]
fn material_counts_for_the_side_to_move() {
    let pos = Position::from_fen("4k3/8/8/8/8/8/8/3QK3 w - - 0 1");
    assert_eq!(evaluate_material(&pos), 900);
    let pos = Position::from_fen("4k3/8/8/8/8/8/8/3QK3 b - - 0 1");
    assert_eq!(evaluate_material(&pos), -900);
    assert_eq!(game_phase(&pos), 4);
}

#[test]
fn phase_is_capped() {
    let pos = Position::from_fen("qqqqkqqq/8/8/8/8/8/8/QQQQKQQQ w - - 0 1");
    assert_eq!(game_phase(&pos), 24);
    let pos = Position::from_fen("4k3/8/8/8/8/8/8/4K3 w - - 0 1");
    assert_eq!(game_phase(&pos), 0);
}

#[test]
fn mirrored_positions_score_alike() {
    let white = Position::from_fen("4k3/8/8/8/4P3/8/8/4K3 w - - 0 1");
    let black = Position::from_fen("4k3/8/8/4p3/8/8/8/4K3 b - - 0 1");
    assert_eq!(evaluate(&white), evaluate(&black));
    assert!(evaluate(&white) > 0);
}

#[test]
fn exchange_on_an_undefended_knight() {
    let pos = Position::from_fen("4k3/8/8/3n4/4P3/8/8/4K3 w - - 0 1");
    let mv = Move { from: 28, to: 35, promotion: None, flag: MoveFlag::Capture };
    assert_eq!(see(&pos, mv), 320);
}

#[test]
fn exchange_on_a_defended_knight() {
    let pos = Position::from_fen("4k3/8/2p5/3n4/4P3/8/8/4K3 w - - 0 1");
    let mv = Move { from: 28, to: 35, promotion: None, flag: MoveFlag::Capture };
    assert_eq!(see(&pos, mv), 220);
}

#[test]
fn exchange_losing_a_queen_for_a_pawn() {
    let pos = Position::from_fen("4k3/8/2p5/3p4/8/8/8/3QK3 w - - 0 1");
    let mv = Move { from: 3, to: 35, promotion: None, flag: MoveFlag::Capture };
    // Pawn won, queen lost: White has no second attacker on d5.
    assert_eq!(see(&pos, mv), 100 - 900);
}

#[test]
fn exchange_for_en_passant_is_zero() {
    let pos = Position::from_fen("4k3/8/8/3pP3/8/8/8/4K3 w - d6 0 1");
    let mv = Move { from: 36, to: 43, promotion: None, flag: MoveFlag::EnPassant };
    assert_eq!(see(&pos, mv), 0);
}

#[test]
fn exchange_with_promotion_counts_the_new_piece() {
    let pos = Position::from_fen("1r2k3/P7/8/8/8/8/8/4K3 w - - 0 1");
    let mv = Move { from: 48, to: 57, promotion: Some(Piece::Queen), flag: MoveFlag::PromotionCapture };
    assert_eq!(see(&pos, mv), 500);
}

#[test]
fn reduction_table_matches_logarithms() {
    let t = build_lmr_table();
    assert_eq!(t.len(), 64);
    for depth in 1..64usize {
        for moves in 1..64usize {
            let r = (depth as f64).ln() * (moves as f64).ln() / 2.0;
            let expected = (r as u32).max(1);
            assert_eq!(t[depth][moves], expected, "depth {} moves {}", depth, moves);
        }
    }
    for i in 0..64usize {
        assert_eq!(t[0][i], 0);
        assert_eq!(t[i][0], 0);
    }
}

#[test]
fn handing_over_the_move_negates_the_evaluation() {
    let white = Position::from_fen("4k3/8/8/3q4/8/8/3R4/4K3 w - - 0 1");
    let black = Position::from_fen("4k3/8/8/3q4/8/8/3R4/4K3 b - - 0 1");
    assert_eq!(evaluate(&white), -evaluate(&black));
    assert!(evaluate(&white) < 0);
}

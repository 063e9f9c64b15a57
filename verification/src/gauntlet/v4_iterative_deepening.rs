//! Alpha-beta on material with iterative deepening under a time limit.
use vstd::prelude::*;
use core::time::Duration;
use web_time::Instant;
use crate::types::Move;
use crate::position::{Position, law_undo_restores};
use crate::movegen::{node_of, legal, sound, lemma_pseudo_fits, lemma_legal_keeps_sound};
use crate::perft::{next_node, legal_set};
use crate::eval::evaluate_material;
use crate::game::{GameState, no_legal_move};
use crate::search::{CHECKMATE_SCORE, WINDOW_BOUND, TIMEOUT, time_is_up, deadline_in, millis};
use crate::gauntlet::negamax::{minimax, seq_best, lemma_seq_best_fold, lemma_seq_best_ge, lemma_minimax_bounds};
use crate::gauntlet::alphabeta::{window_ok, clamped, score_between};

verus! {

/// Alpha-beta search of the position to `depth` plies with the window
/// (`alpha`, `beta`), fail-hard: unless the deadline passes (`TIMEOUT`),
/// the minimax value when inside the window, else a bound on its side;
/// with a legal move and depth left, exactly that value held to the window.
/// The position is left as it was.
pub fn negamax(pos: &mut Position, depth: u32, alpha: i32, beta: i32, deadline: Instant) -> (r: i32)
    requires
        sound(*old(pos)),
        old(pos).halfmove_clock + depth < u32::MAX,
        -WINDOW_BOUND <= alpha <= WINDOW_BOUND,
        -WINDOW_BOUND <= beta <= WINDOW_BOUND,
    ensures
        r == TIMEOUT || (score_between(r as int, alpha as int, beta as int) && window_ok(
            minimax(node_of(*old(pos)), depth as nat),
            r as int,
            alpha as int,
            beta as int,
        )),
        r != TIMEOUT && depth >= 1 && !no_legal_move(*old(pos)) && alpha <= beta
            ==> r == clamped(minimax(node_of(*old(pos)), depth as nat), alpha as int, beta as int),
        node_of(*final(pos)) == node_of(*old(pos)),
        sound(*final(pos)),
        final(pos).halfmove_clock == old(pos).halfmove_clock,
        final(pos).zobrist_keys == old(pos).zobrist_keys,
        final(pos).fullmove_count == old(pos).fullmove_count,
    decreases depth,
{
    let ghost p0 = *pos;
    let ghost n0 = node_of(p0);
    if time_is_up(&deadline) {
        return TIMEOUT;
    }
    if depth == 0 {
        let e = evaluate_material(pos);
        proof {
            crate::eval::lemma_material_bound(pos.view());
        }
        return e;
    }
    let moves = pos.get_legal_moves();
    proof {
        assert(legal_set(n0) =~= moves@.to_set());
    }
    if moves.len() == 0 {
        proof {
            assert(legal_set(n0) =~= Set::<Move>::empty());
            assert forall|m: Move| !#[trigger] legal(p0, m) by {
                assert(!moves@.contains(m));
            }
        }
        let check = pos.is_in_check(pos.side_to_move);
        return if check {
            -CHECKMATE_SCORE
        } else {
            0
        };
    }
    proof {
        assert(moves@.contains(moves@[0]));
        assert(legal_set(n0).contains(moves@[0]));
        assert(!Set::<Move>::empty().contains(moves@[0]));
        lemma_seq_best_fold(n0, (depth - 1) as nat, moves@);
    }
    let ghost d1 = (depth - 1) as nat;
    let ghost v = minimax(n0, depth as nat);
    let mut a = alpha;
    let mut i: usize = 0;
    while i < moves.len()
        invariant
            i <= moves.len(),
            depth >= 1,
            d1 == depth - 1,
            n0 == node_of(p0),
            p0.halfmove_clock + depth < u32::MAX,
            -WINDOW_BOUND <= alpha <= a <= WINDOW_BOUND,
            -WINDOW_BOUND <= beta <= WINDOW_BOUND,
            a <= beta || a == alpha,
            i == 0 ==> a == alpha,
            forall|m: Move| #[trigger] moves@.contains(m) <==> legal(p0, m),
            v == seq_best(n0, d1, moves@),
            v == minimax(n0, depth as nat),
            i > 0 ==> a == (if seq_best(n0, d1, moves@.take(i as int)) > alpha { seq_best(n0, d1, moves@.take(i as int)) } else { alpha as int }),
            i > 0 ==> (seq_best(n0, d1, moves@.take(i as int)) < beta || alpha >= beta),
            p0 == *old(pos),
            node_of(*pos) == n0,
            sound(*pos),
            pos.halfmove_clock == p0.halfmove_clock,
            pos.zobrist_keys == p0.zobrist_keys,
            pos.fullmove_count == p0.fullmove_count,
        decreases moves.len() - i,
    {
        let mv = moves[i];
        let ghost q0 = *pos;
        proof {
            assert(moves@.contains(mv));
            assert(legal(q0, mv));
            lemma_pseudo_fits(q0, mv);
        }
        let undo = pos.make_move(mv);
        let ghost q = *pos;
        proof {
            lemma_legal_keeps_sound(q0, mv, q, undo);
            crate::perft::lemma_node_made(q0, mv, q, undo);
        }
        let raw = negamax(pos, depth - 1, -beta, -a, deadline);
        let ghost q1 = *pos;
        pos.undo_move(mv, undo);
        proof {
            let q2 = Position { fullmove_count: q.fullmove_count, ..q1 };
            let r2 = *pos;
            law_undo_restores(q0, mv, q2, undo, r2);
            assert(node_of(*pos) == n0);
            assert(pos.side_to_move == q0.side_to_move);
            assert(moves@.take(i as int + 1).drop_last() =~= moves@.take(i as int));
            lemma_seq_best_ge(n0, d1, moves@, i as int + 1);
            assert(moves@.take(i as int + 1)[i as int] == mv);
            lemma_seq_best_ge(n0, d1, moves@.take(i as int + 1), i as int + 1);
        }
        if raw == TIMEOUT {
            return TIMEOUT;
        }
        let score = -raw;
        proof {
            assert(moves@[i as int] == mv);
            assert(v >= -minimax(next_node(n0, mv), d1));
            lemma_minimax_bounds(next_node(n0, mv), d1);
            assert(moves@.take(1).drop_last() =~= Seq::<Move>::empty());
            let vc = minimax(next_node(n0, mv), d1);
            let part = seq_best(n0, d1, moves@.take(i as int));
            assert(seq_best(n0, d1, moves@.take(i as int + 1)) == (if -vc > part { -vc } else { part }));
            if i == 0 {
                assert(part == -CHECKMATE_SCORE - 1);
            }
        }
        if score >= beta {
            return beta;
        }
        if score > a {
            a = score;
        }
        i = i + 1;
    }
    proof {
        assert(moves@.take(moves.len() as int) =~= moves@);
    }
    a
}

/// An iteratively deepening alpha-beta bot with a time limit.
pub struct Bot {
    pub depth: u32,
    pub max_time: Option<Duration>,
}

impl Bot {
    /// No depth limit, half a second per move.
    #[allow(clippy::new_without_default)]
    pub fn new() -> (r: Self)
        ensures
            r.depth == u32::MAX,
            r.max_time is Some,
    {
        Bot { depth: u32::MAX, max_time: Some(millis(500)) }
    }

    /// At most `depth` plies, half a second per move.
    pub fn with_depth(depth: u32) -> (r: Self)
        ensures
            r.depth == depth,
            r.max_time is Some,
    {
        Bot { depth, max_time: Some(millis(500)) }
    }

    /// No depth limit, `max_time` per move.
    pub fn with_time(max_time: Duration) -> (r: Self)
        ensures
            r.depth == u32::MAX,
            r.max_time == Some(max_time),
    {
        Bot { depth: u32::MAX, max_time: Some(max_time) }
    }

    /// Searches depth 1, 2, ... until the depth limit or the deadline (the
    /// time limit, half a second if none, from now) and plays the best move
    /// of the deepest search completed, or the first legal move when none
    /// completed; `None` without a legal move. Deepening also stops where
    /// the fifty-move clock would run past its range.
    pub fn best_move(&mut self, gs: &mut GameState) -> (r: Option<Move>)
        requires
            sound(old(gs).position),
            old(gs).position.halfmove_clock < u32::MAX,
        ensures
            *final(self) == *old(self),
            r is None <==> no_legal_move(old(gs).position),
            r matches Some(m) ==> legal(old(gs).position, m),
            node_of(final(gs).position) == node_of(old(gs).position),
            final(gs).position.halfmove_clock == old(gs).position.halfmove_clock,
            final(gs).position.zobrist_keys == old(gs).position.zobrist_keys,
            final(gs).position.fullmove_count == old(gs).position.fullmove_count,
            final(gs).history == old(gs).history,
            final(gs).repetition_table == old(gs).repetition_table,
            final(gs).result == old(gs).result,
            final(gs).line == old(gs).line,
    {
        let ghost p0 = gs.position;
        let ghost n0 = node_of(p0);
        let moves = gs.position.get_legal_moves();
        if moves.len() == 0 {
            proof {
                assert forall|m: Move| !#[trigger] legal(p0, m) by {
                    assert(!moves@.contains(m));
                }
            }
            return None;
        }
        proof {
            assert(moves@.contains(moves@[0]));
        }
        let budget = match self.max_time {
            Some(d) => d,
            None => millis(500),
        };
        let deadline = deadline_in(budget);
        let mut best_move = Some(moves[0]);
        let mut depth: u32 = 1;
        while depth <= self.depth
            invariant
                forall|m: Move| #[trigger] moves@.contains(m) <==> legal(p0, m),
                n0 == node_of(p0),
                best_move matches Some(m) && moves@.contains(m),
                depth >= 1,
                node_of(gs.position) == n0,
                sound(gs.position),
                gs.position.halfmove_clock == p0.halfmove_clock,
                gs.position.zobrist_keys == p0.zobrist_keys,
                gs.position.fullmove_count == p0.fullmove_count,
                gs.history == old(gs).history,
                gs.repetition_table == old(gs).repetition_table,
                gs.result == old(gs).result,
                gs.line == old(gs).line,
            decreases self.depth - depth,
        {
            if time_is_up(&deadline) {
                break;
            }
            if gs.position.halfmove_clock as u64 + depth as u64 >= 0xffff_ffff {
                break;
            }
            let mut current_best: Option<Move> = None;
            let mut alpha: i32 = -CHECKMATE_SCORE - 1;
            let mut completed = true;
            let mut i: usize = 0;
            while i < moves.len()
                invariant
                    forall|m: Move| #[trigger] moves@.contains(m) <==> legal(p0, m),
                    n0 == node_of(p0),
                    depth >= 1,
                    p0.halfmove_clock + depth < u32::MAX,
                    -CHECKMATE_SCORE - 1 <= alpha <= CHECKMATE_SCORE + 1,
                    current_best matches Some(m) ==> moves@.contains(m),
                    node_of(gs.position) == n0,
                    sound(gs.position),
                    gs.position.halfmove_clock == p0.halfmove_clock,
                    gs.position.zobrist_keys == p0.zobrist_keys,
                    gs.position.fullmove_count == p0.fullmove_count,
                    gs.history == old(gs).history,
                    gs.repetition_table == old(gs).repetition_table,
                    gs.result == old(gs).result,
                    gs.line == old(gs).line,
                decreases moves.len() - i,
            {
                let mv = moves[i];
                let ghost q0 = gs.position;
                proof {
                    assert(moves@.contains(mv));
                    assert(legal(q0, mv));
                    lemma_pseudo_fits(q0, mv);
                }
                let undo = gs.position.make_move(mv);
                let ghost q = gs.position;
                proof {
                    lemma_legal_keeps_sound(q0, mv, q, undo);
                }
                let raw = negamax(&mut gs.position, depth - 1, -CHECKMATE_SCORE - 1, -alpha, deadline);
                let ghost q1 = gs.position;
                gs.position.undo_move(mv, undo);
                proof {
                    let q2 = Position { fullmove_count: q.fullmove_count, ..q1 };
                    let r2 = gs.position;
                    law_undo_restores(q0, mv, q2, undo, r2);
                    assert(node_of(gs.position) == n0);
                    assert(gs.position.side_to_move == q0.side_to_move);
                }
                if raw == TIMEOUT {
                    completed = false;
                    break;
                }
                let score = -raw;
                if score > alpha {
                    alpha = score;
                    current_best = Some(mv);
                }
                i = i + 1;
            }
            if completed {
                if let Some(mv) = current_best {
                    best_move = Some(mv);
                }
            }
            if depth == self.depth {
                break;
            }
            depth = depth + 1;
        }
        best_move
    }
}

} // verus!

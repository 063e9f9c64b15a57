//! Iterative deepening alpha-beta on material with move ordering: captures
//! by most valuable victim and least valuable attacker, then promotions,
//! then killer moves and the history of quiet moves that caused cutoffs.
use vstd::prelude::*;
use core::time::Duration;
use web_time::Instant;
use crate::bitboards::{Cell, cell_ok};
use crate::types::{Piece, MoveFlag, Move, move_eq};
use crate::position::{Position, law_undo_restores};
use crate::movegen::{node_of, legal, sound, lemma_pseudo_fits, lemma_legal_keeps_sound};
use crate::perft::{next_node, legal_set};
use crate::eval::{evaluate_material, piece_value, piece_value_of};
use crate::game::{GameState, no_legal_move};
use crate::search::{
    CHECKMATE_SCORE, WINDOW_BOUND, TIMEOUT, time_is_up, deadline_in, millis, sort_by_keys, same_moves, lemma_same_moves, lemma_keys_follow,
    index_of, swap_moves, raised, killers_after,
};
use crate::gauntlet::negamax::{minimax, seq_best, lemma_seq_best_fold, lemma_seq_best_ge, lemma_minimax_bounds};
use crate::gauntlet::alphabeta::{window_ok, clamped, score_between};
use crate::bot::zero_history;

verus! {

/// The plies the killer table covers.
pub const MAX_DEPTH: usize = 64;

/// The value of the piece on a square, 0 for none.
pub open spec fn cell_value(m: Cell) -> int {
    match m {
        Some((_, p)) => piece_value(p as int),
        None => 0,
    }
}

/// The kind of the piece on a square, 0 (a pawn's) for none.
pub open spec fn cell_kind(m: Cell) -> int {
    match m {
        Some((_, p)) => p as int,
        None => 0,
    }
}

/// The value of a promotion piece, 0 for none.
pub open spec fn promo_value(p: Option<Piece>) -> int {
    match p {
        Some(k) => piece_value(k.index()),
        None => 0,
    }
}

/// The quiet moves: not a capture, en passant or promotion.
pub open spec fn is_quiet(mv: Move) -> bool {
    mv.flag.is_quiet_flag()
}

/// An iteratively deepening alpha-beta bot ordering its moves.
pub struct Bot {
    pub depth: u32,
    pub max_time: Option<Duration>,
    pub killers: [[Option<Move>; 2]; 64],
    pub history: [[i32; 64]; 6],
}

/// The value of a square's piece.
pub(crate) fn value_on(pos: &Position, sq: u8) -> (r: i32)
    requires
        pos.wf(),
        sq < 64,
    ensures
        r == cell_value(pos.view().mailbox[sq as int]),
        0 <= r <= 10_000,
{
    proof {
        assert(cell_ok(pos.view().mailbox[sq as int]));
    }
    match pos.bitboards.mailbox[sq as usize] {
        Some((_, p)) => piece_value_of(p as usize),
        None => 0,
    }
}

/// The kind of a square's piece (0 for none).
pub(crate) fn kind_on(pos: &Position, sq: u8) -> (r: usize)
    requires
        pos.wf(),
        sq < 64,
    ensures
        r == cell_kind(pos.view().mailbox[sq as int]),
        r < 6,
{
    proof {
        assert(cell_ok(pos.view().mailbox[sq as int]));
    }
    match pos.bitboards.mailbox[sq as usize] {
        Some((_, p)) => p as usize,
        None => 0,
    }
}

/// Whether the killer slot holds `mv`.
pub(crate) fn holds(k: Option<Move>, mv: &Move) -> (r: bool)
    ensures
        r == (k == Some(*mv)),
{
    match k {
        Some(x) => move_eq(&x, mv),
        None => false,
    }
}

impl Bot {
    /// The ordering score of `mv` at ply `ply`: captures 10000 plus the
    /// victim's value less the attacker's, en passant 10000, promotions the
    /// new piece's value; quiet moves 9000 and 8000 for the killers, else
    /// their history score capped at 7000.
    pub open spec fn score_spec(&self, v: crate::bitboards::BoardView, mv: Move, ply: int) -> int {
        if mv.flag == MoveFlag::Capture || mv.flag == MoveFlag::PromotionCapture {
            10_000 + cell_value(v.mailbox[mv.to as int]) - cell_value(v.mailbox[mv.from as int])
        } else if mv.flag == MoveFlag::EnPassant {
            10_000
        } else if mv.flag == MoveFlag::Promotion {
            promo_value(mv.promotion)
        } else if self.killers[ply][0] == Some(mv) {
            9_000
        } else if self.killers[ply][1] == Some(mv) {
            8_000
        } else {
            let h = self.history[cell_kind(v.mailbox[mv.from as int])][mv.to as int] as int;
            if h < 7_000 {
                h
            } else {
                7_000
            }
        }
    }

    /// The ordering score of `mv` at ply `ply`.
    pub fn score_move(&self, pos: &Position, mv: Move, ply: usize) -> (r: i32)
        requires
            pos.wf(),
            mv.from < 64,
            mv.to < 64,
            ply < MAX_DEPTH,
        ensures
            r == self.score_spec(pos.view(), mv, ply as int),
    {
        match mv.flag {
            MoveFlag::Capture | MoveFlag::PromotionCapture => {
                let victim = value_on(pos, mv.to);
                let attacker = value_on(pos, mv.from);
                10_000 + victim - attacker
            },
            MoveFlag::EnPassant => 10_000,
            MoveFlag::Promotion => match mv.promotion {
                Some(p) => piece_value_of(p.idx()),
                None => 0,
            },
            _ => {
                let k = self.killers[ply];
                if holds(k[0], &mv) {
                    9_000
                } else if holds(k[1], &mv) {
                    8_000
                } else {
                    let piece = kind_on(pos, mv.from);
                    let h = self.history[piece][mv.to as usize];
                    if h < 7_000 {
                        h
                    } else {
                        7_000
                    }
                }
            },
        }
    }
}

impl Bot {
    /// The moves, best ordering score first.
    pub fn order_moves(&self, pos: &Position, moves: Vec<Move>, ply: usize) -> (r: Vec<Move>)
        requires
            pos.wf(),
            ply < MAX_DEPTH,
            forall|i: int| 0 <= i < moves@.len() ==> (#[trigger] moves@[i]).from < 64 && moves@[i].to < 64,
        ensures
            same_moves(r@, moves@),
            r@.len() == moves@.len(),
            forall|a: int, b: int| 0 <= a < b < r@.len() ==> self.score_spec(pos.view(), r@[a], ply as int) >= self.score_spec(pos.view(), r@[b], ply as int),
    {
        let mut keys: Vec<i32> = Vec::new();
        let mut i: usize = 0;
        while i < moves.len()
            invariant
                i <= moves.len(),
                keys@.len() == i,
                forall|t: int| 0 <= t < i ==> keys@[t] == self.score_spec(pos.view(), #[trigger] moves@[t], ply as int),
                pos.wf(),
                ply < MAX_DEPTH,
                forall|i: int| 0 <= i < moves@.len() ==> (#[trigger] moves@[i]).from < 64 && moves@[i].to < 64,
            decreases moves.len() - i,
        {
            let k = self.score_move(pos, moves[i], ply);
            keys.push(k);
            i = i + 1;
        }
        let ghost k0 = keys@;
        let mut sorted = moves;
        sort_by_keys(&mut sorted, &mut keys);
        proof {
            let f = |m: Move| self.score_spec(pos.view(), m, ply as int);
            assert forall|t: int| 0 <= t < moves@.len() implies k0[t] == f(#[trigger] moves@[t]) by {}
            lemma_keys_follow(moves@, k0, sorted@, keys@, f);
            assert forall|a: int, b: int| 0 <= a < b < sorted@.len() implies self.score_spec(pos.view(), sorted@[a], ply as int) >= self.score_spec(pos.view(), sorted@[b], ply as int) by {
                assert(keys@[a] == f(sorted@[a]));
                assert(keys@[b] == f(sorted@[b]));
            }
        }
        sorted
    }

    /// `mv` caused a cutoff at `ply` with `depth` left; when it is quiet, it
    /// becomes the first killer of the ply (the old first moving to second,
    /// unless it was `mv`), and its piece and target earn `depth` squared of
    /// history, saturating.
    pub fn record_cutoff(&mut self, pos: &Position, mv: Move, ply: usize, depth: u32)
        requires
            pos.wf(),
            mv.from < 64,
            mv.to < 64,
            ply < MAX_DEPTH,
            depth <= MAX_DEPTH,
        ensures
            final(self).depth == old(self).depth,
            final(self).max_time == old(self).max_time,
            mv.flag.is_quiet_flag() ==> (final(self).killers[ply as int][0], final(self).killers[ply as int][1])
                == killers_after(old(self).killers[ply as int], mv),
            mv.flag.is_quiet_flag() ==> final(self).history[cell_kind(pos.view().mailbox[mv.from as int])][mv.to as int]
                == raised(old(self).history[cell_kind(pos.view().mailbox[mv.from as int])][mv.to as int], depth * depth),
            forall|p: int| 0 <= p < 64 && (p != ply || !mv.flag.is_quiet_flag()) ==> #[trigger] final(self).killers[p]
                == old(self).killers[p],
            forall|k: int, t: int|
                0 <= k < 6 && 0 <= t < 64 && !(mv.flag.is_quiet_flag() && k == cell_kind(pos.view().mailbox[mv.from as int])
                    && t == mv.to) ==> #[trigger] final(self).history[k][t] == old(self).history[k][t],
    {
        let quiet = match mv.flag {
            MoveFlag::Quiet | MoveFlag::DoublePawnPush | MoveFlag::KingCastle | MoveFlag::QueenCastle => true,
            _ => false,
        };
        if quiet {
            let mut k = self.killers[ply];
            if !holds(k[0], &mv) {
                k[1] = k[0];
                k[0] = Some(mv);
            }
            self.killers[ply] = k;
            let piece = kind_on(pos, mv.from);
            proof {
                assert(depth * depth <= 4096) by (nonlinear_arith)
                    requires
                        depth <= 64,
                ;
            }
            let bonus = (depth * depth) as i32;
            let mut row = self.history[piece];
            let old = row[mv.to as usize];
            row[mv.to as usize] = if old > i32::MAX - bonus {
                i32::MAX
            } else {
                old + bonus
            };
            self.history[piece] = row;
        }
    }

    /// Alpha-beta search as in the plain searcher, trying moves in order of
    /// their ordering score; a quiet move that causes a cutoff becomes the
    /// first killer of its ply and earns its piece and target square a
    /// history bonus of the depth squared (saturating where the counter would overflow).
    /// Unless the deadline passes (`TIMEOUT`), the minimax value when inside
    /// the window, else a bound on its side; with a legal move and depth
    /// left, exactly that value held to the window.
    pub fn negamax(&mut self, pos: &mut Position, depth: u32, ply: usize, alpha: i32, beta: i32, deadline: Instant) -> (r: i32)
        requires
            sound(*old(pos)),
            old(pos).halfmove_clock + depth < u32::MAX,
            ply + depth <= MAX_DEPTH,
            -WINDOW_BOUND <= alpha <= WINDOW_BOUND,
            -WINDOW_BOUND <= beta <= WINDOW_BOUND,
        ensures
            r == TIMEOUT || (score_between(r as int, alpha as int, beta as int) && window_ok(
                minimax(node_of(*old(pos)), depth as nat),
                r as int,
                alpha as int,
                beta as int,
            )),
            r != TIMEOUT && depth >= 1 && !no_legal_move(*old(pos)) && alpha <= beta
                ==> r == clamped(minimax(node_of(*old(pos)), depth as nat), alpha as int, beta as int),
            node_of(*final(pos)) == node_of(*old(pos)),
            sound(*final(pos)),
            final(pos).halfmove_clock == old(pos).halfmove_clock,
            final(pos).zobrist_keys == old(pos).zobrist_keys,
            final(pos).fullmove_count == old(pos).fullmove_count,
            final(self).depth == old(self).depth,
            final(self).max_time == old(self).max_time,
        decreases depth,
    {
        let ghost p0 = *pos;
        let ghost n0 = node_of(p0);
        if time_is_up(&deadline) {
            return TIMEOUT;
        }
        if depth == 0 {
            let e = evaluate_material(pos);
            proof {
                crate::eval::lemma_material_bound(pos.view());
            }
            return e;
        }
        let legal_moves = pos.get_legal_moves();
        proof {
            assert forall|i: int| 0 <= i < legal_moves@.len() implies (#[trigger] legal_moves@[i]).from < 64 && legal_moves@[i].to < 64 by {
                assert(legal_moves@.contains(legal_moves@[i]));
                lemma_pseudo_fits(p0, legal_moves@[i]);
            }
        }
        let moves = self.order_moves(pos, legal_moves, ply);
        proof {
            lemma_same_moves(moves@, legal_moves@);
            assert(legal_set(n0) =~= moves@.to_set());
        }
        if moves.len() == 0 {
            proof {
                assert(legal_set(n0) =~= Set::<Move>::empty());
                assert forall|m: Move| !#[trigger] legal(p0, m) by {
                    assert(!moves@.contains(m));
                }
            }
            let check = pos.is_in_check(pos.side_to_move);
            return if check {
                -CHECKMATE_SCORE
            } else {
                0
            };
        }
        proof {
            assert(moves@.contains(moves@[0]));
            assert(legal_set(n0).contains(moves@[0]));
            assert(!Set::<Move>::empty().contains(moves@[0]));
            lemma_seq_best_fold(n0, (depth - 1) as nat, moves@);
        }
        let ghost d1 = (depth - 1) as nat;
        let ghost v = minimax(n0, depth as nat);
        let mut a = alpha;
        let mut i: usize = 0;
        while i < moves.len()
            invariant
                i <= moves.len(),
                depth >= 1,
                d1 == depth - 1,
                ply + depth <= MAX_DEPTH,
                n0 == node_of(p0),
                p0 == *old(pos),
                p0.halfmove_clock + depth < u32::MAX,
                -WINDOW_BOUND <= alpha <= a <= WINDOW_BOUND,
                -WINDOW_BOUND <= beta <= WINDOW_BOUND,
                a <= beta || a == alpha,
                i == 0 ==> a == alpha,
                forall|m: Move| #[trigger] moves@.contains(m) <==> legal(p0, m),
                v == seq_best(n0, d1, moves@),
                v == minimax(n0, depth as nat),
                i > 0 ==> a == (if seq_best(n0, d1, moves@.take(i as int)) > alpha {
                    seq_best(n0, d1, moves@.take(i as int))
                } else {
                    alpha as int
                }),
                i > 0 ==> (seq_best(n0, d1, moves@.take(i as int)) < beta || alpha >= beta),
                node_of(*pos) == n0,
                sound(*pos),
                pos.halfmove_clock == p0.halfmove_clock,
                pos.zobrist_keys == p0.zobrist_keys,
                pos.fullmove_count == p0.fullmove_count,
                self.depth == old(self).depth,
                self.max_time == old(self).max_time,
            decreases moves.len() - i,
        {
            let mv = moves[i];
            let ghost q0 = *pos;
            proof {
                assert(moves@.contains(mv));
                assert(legal(q0, mv));
                lemma_pseudo_fits(q0, mv);
            }
            let undo = pos.make_move(mv);
            let ghost q = *pos;
            proof {
                lemma_legal_keeps_sound(q0, mv, q, undo);
                crate::perft::lemma_node_made(q0, mv, q, undo);
            }
            let raw = self.negamax(pos, depth - 1, ply + 1, -beta, -a, deadline);
            let ghost q1 = *pos;
            pos.undo_move(mv, undo);
            proof {
                let q2 = Position { fullmove_count: q.fullmove_count, ..q1 };
                let r2 = *pos;
                law_undo_restores(q0, mv, q2, undo, r2);
                assert(node_of(*pos) == n0);
                assert(pos.side_to_move == q0.side_to_move);
                assert(moves@.take(i as int + 1).drop_last() =~= moves@.take(i as int));
                lemma_seq_best_ge(n0, d1, moves@, i as int + 1);
                assert(moves@.take(i as int + 1)[i as int] == mv);
                lemma_seq_best_ge(n0, d1, moves@.take(i as int + 1), i as int + 1);
                assert(moves@[i as int] == mv);
                assert(v >= -minimax(next_node(n0, mv), d1));
                lemma_minimax_bounds(next_node(n0, mv), d1);
                assert(moves@.take(1).drop_last() =~= Seq::<Move>::empty());
                let vc = minimax(next_node(n0, mv), d1);
                let part = seq_best(n0, d1, moves@.take(i as int));
                assert(seq_best(n0, d1, moves@.take(i as int + 1)) == (if -vc > part { -vc } else { part }));
                if i == 0 {
                    assert(part == -CHECKMATE_SCORE - 1);
                }
            }
            if raw == TIMEOUT {
                return TIMEOUT;
            }
            let score = -raw;
            if score >= beta {
                self.record_cutoff(pos, mv, ply, depth);
                return beta;
            }
            if score > a {
                a = score;
            }
            i = i + 1;
        }
        proof {
            assert(moves@.take(moves.len() as int) =~= moves@);
        }
        a
    }
}

/// The best of `a` and the children's results `rs` negated, in turn.
pub open spec fn run_alpha(a: int, rs: Seq<int>) -> int
    decreases rs.len(),
{
    if rs.len() == 0 {
        a
    } else {
        let b = run_alpha(a, rs.drop_last());
        if -rs.last() > b {
            -rs.last()
        } else {
            b
        }
    }
}

/// The ordering score of a move at the root on cleared tables (no
/// killers, no history): `score_spec` with those tables.
pub open spec fn opening_score(v: crate::bitboards::BoardView, mv: Move) -> int {
    if mv.flag == MoveFlag::Capture || mv.flag == MoveFlag::PromotionCapture {
        10_000 + cell_value(v.mailbox[mv.to as int]) - cell_value(v.mailbox[mv.from as int])
    } else if mv.flag == MoveFlag::EnPassant {
        10_000
    } else if mv.flag == MoveFlag::Promotion {
        promo_value(mv.promotion)
    } else {
        0
    }
}

/// Whether `m` is a legal move of `p` that comes first in the ordering on
/// cleared tables: no legal move scores higher.
pub open spec fn ordered_first(p: Position, m: Move) -> bool {
    &&& legal(p, m)
    &&& forall|x: Move| #[trigger] legal(p, x) ==> opening_score(p.view(), m) >= opening_score(p.view(), x)
}

/// One root search of `p` to depth `d`: the moves `ms` in turn, each
/// searched to `d - 1` between the mated score less one and the best so
/// far, with the results `rs`, each as `window_ok` says of the minimax
/// value of the child.
pub open spec fn root_trail(p: Position, d: u32, ms: Seq<Move>, rs: Seq<int>) -> bool
    decreases ms.len(),
{
    if ms.len() == 0 {
        rs.len() == 0
    } else {
        &&& rs.len() == ms.len()
        &&& root_trail(p, d, ms.drop_last(), rs.drop_last())
        &&& legal(p, ms.last())
        &&& !ms.drop_last().contains(ms.last())
        &&& window_ok(
            minimax(next_node(node_of(p), ms.last()), (d - 1) as nat),
            rs.last(),
            -CHECKMATE_SCORE - 1,
            -run_alpha(-CHECKMATE_SCORE - 1, rs.drop_last()),
        )
    }
}

/// The move a root search picks from its results: the first whose score
/// rose above the best before it.
pub open spec fn root_pick(ms: Seq<Move>, rs: Seq<int>) -> Option<Move>
    decreases ms.len(),
{
    if ms.len() == 0 || rs.len() == 0 {
        None
    } else {
        let b = root_pick(ms.drop_last(), rs.drop_last());
        if -rs.last() > run_alpha(-CHECKMATE_SCORE - 1, rs.drop_last()) {
            Some(ms.last())
        } else {
            b
        }
    }
}

/// A root search of `p` to depth `d` that tried every legal move and
/// picked `m`.
pub open spec fn iteration_picks(p: Position, d: u32, ms: Seq<Move>, rs: Seq<int>, m: Move) -> bool {
    &&& d >= 1
    &&& root_trail(p, d, ms, rs)
    &&& forall|x: Move| #[trigger] legal(p, x) ==> ms.contains(x)
    &&& root_pick(ms, rs) == Some(m)
}

impl Bot {
    /// The tables as a new player has them: no killers, no history.
    pub open spec fn fresh(&self) -> bool {
        &&& forall|p: int, j: int| 0 <= p < 64 && 0 <= j < 2 ==> #[trigger] self.killers[p][j] is None
        &&& forall|k: int, s: int| 0 <= k < 6 && 0 <= s < 64 ==> #[trigger] self.history[k][s] == 0
    }

    /// A player with the given limits and cleared tables.
    fn with_limits(depth: u32, max_time: Duration) -> (r: Self)
        ensures
            r.fresh(),
            r.depth == depth,
            r.max_time == Some(max_time),
    {
        let history = zero_history();
        let no_killers: [Option<Move>; 2] = [None, None];
        let killers = [no_killers; 64];
        proof {
            assert forall|p: int, j: int| 0 <= p < 64 && 0 <= j < 2 implies #[trigger] killers[p][j] is None by {
                assert(killers[p] == no_killers);
            }
        }
        Bot { depth, max_time: Some(max_time), killers, history }
    }

    /// No depth limit, half a second per move, empty tables.
    #[allow(clippy::new_without_default)]
    pub fn new() -> (r: Self)
        ensures
            r.fresh(),
            r.depth == u32::MAX,
            r.max_time is Some,
    {
        Self::with_limits(u32::MAX, millis(500))
    }

    /// At most `depth` plies, half a second per move.
    pub fn with_depth(depth: u32) -> (r: Self)
        ensures
            r.fresh(),
            r.depth == depth,
            r.max_time is Some,
    {
        Self::with_limits(depth, millis(500))
    }

    /// No depth limit, `max_time` per move.
    pub fn with_time(max_time: Duration) -> (r: Self)
        ensures
            r.fresh(),
            r.depth == u32::MAX,
            r.max_time == Some(max_time),
    {
        Self::with_limits(u32::MAX, max_time)
    }

    /// Clears the history and the killers, orders the root moves, then
    /// deepens as the plain searcher does, trying the best move so far
    /// first at each depth and clearing the killers between depths. Plays
    /// the best move of the deepest search completed, or the first move in
    /// order; `None` without a legal move. Deepening stops below the depth
    /// the killer table covers, and where the fifty-move clock would run
    /// past its range.
    pub fn best_move(&mut self, gs: &mut GameState) -> (r: Option<Move>)
        requires
            sound(old(gs).position),
            old(gs).position.halfmove_clock < u32::MAX,
        ensures
            final(self).depth == old(self).depth,
            final(self).max_time == old(self).max_time,
            r is None <==> no_legal_move(old(gs).position),
            r matches Some(m) ==> legal(old(gs).position, m),
            r matches Some(m) ==> ordered_first(old(gs).position, m) || exists|d: u32, ms: Seq<Move>, rs: Seq<int>|
                d <= old(self).depth && #[trigger] iteration_picks(old(gs).position, d, ms, rs, m),
            node_of(final(gs).position) == node_of(old(gs).position),
            final(gs).position.halfmove_clock == old(gs).position.halfmove_clock,
            final(gs).position.zobrist_keys == old(gs).position.zobrist_keys,
            final(gs).position.fullmove_count == old(gs).position.fullmove_count,
            final(gs).history == old(gs).history,
            final(gs).repetition_table == old(gs).repetition_table,
            final(gs).result == old(gs).result,
            final(gs).line == old(gs).line,
    {
        self.history = zero_history();
        let no_killers: [Option<Move>; 2] = [None, None];
        self.killers = [no_killers; 64];
        let ghost p0 = gs.position;
        let ghost n0 = node_of(p0);
        let legal_moves = gs.position.get_legal_moves();
        if legal_moves.len() == 0 {
            proof {
                assert forall|m: Move| !#[trigger] legal(p0, m) by {
                    assert(!legal_moves@.contains(m));
                }
            }
            return None;
        }
        proof {
            assert forall|i: int| 0 <= i < legal_moves@.len() implies (#[trigger] legal_moves@[i]).from < 64 && legal_moves@[i].to < 64 by {
                assert(legal_moves@.contains(legal_moves@[i]));
                lemma_pseudo_fits(p0, legal_moves@[i]);
            }
        }
        let mut moves = self.order_moves(&gs.position, legal_moves, 0);
        let ghost first = moves@[0];
        proof {
            lemma_same_moves(moves@, legal_moves@);
            assert(moves@.contains(moves@[0]));
            assert(self.killers[0] == no_killers);
            assert forall|x: Move| #[trigger] legal(p0, x) implies opening_score(p0.view(), first) >= opening_score(p0.view(), x) by {
                assert(legal_moves@.contains(x));
                assert(moves@.contains(x));
                let b = choose|b: int| 0 <= b < moves@.len() && moves@[b] == x;
                assert forall|y: Move| #[trigger] moves@.contains(y) implies self.score_spec(p0.view(), y, 0) == opening_score(p0.view(), y) by {
                    lemma_pseudo_fits(p0, y);
                    assert(cell_ok(p0.view().mailbox[y.from as int]));
                }
                assert(moves@.contains(first));
                if b > 0 {
                    assert(self.score_spec(p0.view(), moves@[0], 0) >= self.score_spec(p0.view(), moves@[b], 0));
                }
            }
            assert(ordered_first(p0, first));
        }
        let budget = match self.max_time {
            Some(d) => d,
            None => millis(500),
        };
        let deadline = deadline_in(budget);
        let mut best_move = Some(moves[0]);
        let mut depth: u32 = 1;
        while depth <= self.depth
            invariant
                forall|m: Move| #[trigger] moves@.contains(m) <==> legal(p0, m),
                n0 == node_of(p0),
                moves@.len() > 0,
                best_move matches Some(m) && moves@.contains(m),
                best_move matches Some(m) && (ordered_first(p0, m) || exists|d: u32, ms: Seq<Move>, rs: Seq<int>|
                    d <= old(self).depth && #[trigger] iteration_picks(p0, d, ms, rs, m)),
                p0 == old(gs).position,
                moves@.no_duplicates(),
                depth >= 1,
                self.depth == old(self).depth,
                self.max_time == old(self).max_time,
                node_of(gs.position) == n0,
                sound(gs.position),
                gs.position.halfmove_clock == p0.halfmove_clock,
                gs.position.zobrist_keys == p0.zobrist_keys,
                gs.position.fullmove_count == p0.fullmove_count,
                gs.history == old(gs).history,
                gs.repetition_table == old(gs).repetition_table,
                gs.result == old(gs).result,
                gs.line == old(gs).line,
            decreases self.depth - depth,
        {
            if time_is_up(&deadline) {
                break;
            }
            if depth as usize >= MAX_DEPTH || gs.position.halfmove_clock as u64 + depth as u64 >= 0xffff_ffff {
                break;
            }
            if let Some(bm) = best_move {
                if let Some(idx) = index_of(&moves, &bm) {
                    let ghost before = moves@;
                    swap_moves(&mut moves, 0, idx);
                    proof {
                        lemma_same_moves(moves@, before);
                    }
                }
            }
            self.killers = [[None; 2]; 64];
            let mut current_best: Option<Move> = None;
            let mut alpha: i32 = -CHECKMATE_SCORE - 1;
            let mut completed = true;
            let ghost mut rs: Seq<int> = Seq::empty();
            let mut i: usize = 0;
            while i < moves.len()
                invariant_except_break
                    completed,
                    rs.len() == i,
                    alpha as int == run_alpha(-CHECKMATE_SCORE - 1, rs),
                    current_best == root_pick(moves@.take(i as int), rs),
                    root_trail(p0, depth, moves@.take(i as int), rs),
                invariant
                    i <= moves.len(),
                    moves@.no_duplicates(),
                    forall|m: Move| #[trigger] moves@.contains(m) <==> legal(p0, m),
                    n0 == node_of(p0),
                    1 <= depth < MAX_DEPTH,
                    p0.halfmove_clock + depth < u32::MAX,
                    -CHECKMATE_SCORE - 1 <= alpha <= CHECKMATE_SCORE + 1,
                    current_best matches Some(m) ==> moves@.contains(m),
                    self.depth == old(self).depth,
                    self.max_time == old(self).max_time,
                    node_of(gs.position) == n0,
                    sound(gs.position),
                    gs.position.halfmove_clock == p0.halfmove_clock,
                    gs.position.zobrist_keys == p0.zobrist_keys,
                    gs.position.fullmove_count == p0.fullmove_count,
                    gs.history == old(gs).history,
                    gs.repetition_table == old(gs).repetition_table,
                    gs.result == old(gs).result,
                    gs.line == old(gs).line,
                ensures
                    completed ==> {
                        &&& i == moves.len()
                        &&& current_best == root_pick(moves@.take(i as int), rs)
                        &&& root_trail(p0, depth, moves@.take(i as int), rs)
                    },
                decreases moves.len() - i,
            {
                let mv = moves[i];
                let ghost q0 = gs.position;
                proof {
                    assert(moves@.contains(mv));
                    assert(legal(q0, mv));
                    lemma_pseudo_fits(q0, mv);
                }
                let undo = gs.position.make_move(mv);
                let ghost q = gs.position;
                proof {
                    lemma_legal_keeps_sound(q0, mv, q, undo);
                }
                proof {
                    crate::perft::lemma_node_made(q0, mv, q, undo);
                    assert(node_of(q) == next_node(node_of(p0), mv));
                }
                let raw = self.negamax(&mut gs.position, depth - 1, 1, -CHECKMATE_SCORE - 1, -alpha, deadline);
                let ghost q1 = gs.position;
                gs.position.undo_move(mv, undo);
                proof {
                    let q2 = Position { fullmove_count: q.fullmove_count, ..q1 };
                    let r2 = gs.position;
                    law_undo_restores(q0, mv, q2, undo, r2);
                    assert(node_of(gs.position) == n0);
                    assert(gs.position.side_to_move == q0.side_to_move);
                }
                if raw == TIMEOUT {
                    completed = false;
                    break;
                }
                proof {
                    let ms1 = moves@.take(i as int + 1);
                    assert(ms1.drop_last() =~= moves@.take(i as int));
                    assert(ms1.last() == mv);
                    assert(!moves@.take(i as int).contains(mv)) by {
                        if moves@.take(i as int).contains(mv) {
                            let k = choose|k: int| 0 <= k < i && moves@.take(i as int)[k] == mv;
                            assert(moves@[k] == moves@[i as int]);
                        }
                    }
                    let rs0 = rs;
                    rs = rs.push(raw as int);
                    assert(rs.drop_last() =~= rs0);
                    assert(root_trail(p0, depth, ms1, rs));
                }
                let score = -raw;
                if score > alpha {
                    alpha = score;
                    current_best = Some(mv);
                }
                i = i + 1;
            }
            if completed {
                if let Some(mv) = current_best {
                    proof {
                        assert(moves@.take(moves.len() as int) =~= moves@);
                        assert forall|x: Move| #[trigger] legal(p0, x) implies moves@.take(moves.len() as int).contains(x) by {
                            assert(moves@.contains(x));
                        }
                        assert(iteration_picks(p0, depth, moves@.take(moves.len() as int), rs, mv));
                    }
                    best_move = Some(mv);
                }
            }
            if depth == self.depth {
                break;
            }
            depth = depth + 1;
        }
        best_move
    }
}

} // verus!

//! Move-ordered iterative deepening on material with a transposition
//! table, repetition detection, principal-variation search, aspiration
//! windows and a quiescence search of captures with delta pruning.
use vstd::prelude::*;
use core::time::Duration;
use web_time::Instant;
use crate::bitboards::{BoardView, cell_ok};
use crate::types::{Color, MoveFlag, Move, lemma_color_index};
use crate::position::{Position, Undo, made, zobrist_spec};
use crate::movegen::{node_of, legal, sound, lemma_pseudo_fits, lemma_legal_keeps_sound, lemma_back};
use crate::eval::{evaluate_material, piece_value, piece_value_of};
use crate::game::{GameState, no_legal_move};
use crate::search::{
    CHECKMATE_SCORE, TIMEOUT, TTEntry, TTFlag, TT_SIZE, SCORE_BOUND, WINDOW_BOUND, tt_index, bounded, clamp_score, time_is_up, deadline_in, millis, empty_table, sort_by_keys, same_moves, lemma_same_moves, lemma_keys_follow, raised, killers_after, index_of, swap_moves, repeated, repetition_score,
};
use crate::gauntlet::negamax::{material_eval, in_check_at};
use crate::gauntlet::v5_move_ordering::{cell_value, cell_kind, promo_value, value_on, kind_on, holds};
use crate::bot::{
    pawn_guards, noisy_moves, is_noisy, slot_entry, table_answer, table_alpha, zero_history, QUIESCENCE_PLY_CAP, MAX_ASPIRATION_TRIES, pow2_u32, lemma_pow2_bound,
};

verus! {

broadcast use lemma_color_index;

/// The plies the killer and repetition tables cover.
pub const MAX_DEPTH: usize = 64;

/// The material margin by which a capture must be able to lift the
/// evaluation to `alpha` to be searched in the quiescence search.
pub const DELTA_MARGIN: i32 = 200;

/// The player: limits, the ordering tables, the line searched, and the
/// transposition table.
pub struct Bot {
    pub depth: u32,
    pub max_time: Option<Duration>,
    pub killers: [[Option<Move>; 2]; 64],
    pub history: [[i32; 64]; 6],
    pub rep_history: [u64; 64],
    pub tt: Vec<TTEntry>,
}

impl Bot {
    /// The table has its size and its scores stay within the bound.
    pub open spec fn wf(&self) -> bool {
        &&& self.tt@.len() == TT_SIZE
        &&& forall|i: int| 0 <= i < self.tt@.len() ==> -SCORE_BOUND <= #[trigger] self.tt@[i].score <= SCORE_BOUND
        &&& forall|k: int, s: int| 0 <= k < 6 && 0 <= s < 64 ==> 0 <= #[trigger] self.history[k][s]
    }

    /// The tables the search reads and writes.
    pub open spec fn tables(&self) -> Tables {
        (self.tt@, self.killers, self.history)
    }

    /// The tables as a new player has them: every table entry empty, no
    /// killers, no history, no line.
    pub open spec fn fresh(&self) -> bool {
        &&& forall|i: int|
            0 <= i < self.tt@.len() ==> #[trigger] self.tt@[i] == (TTEntry {
                hash: 0,
                depth: 0,
                score: 0,
                flag: TTFlag::Exact,
                best_move: None,
            })
        &&& forall|p: int, j: int| 0 <= p < 64 && 0 <= j < 2 ==> #[trigger] self.killers[p][j] is None
        &&& forall|k: int, s: int| 0 <= k < 6 && 0 <= s < 64 ==> #[trigger] self.history[k][s] == 0
        &&& forall|p: int| 0 <= p < 64 ==> #[trigger] self.rep_history[p] == 0
    }

    /// A player with the given limits and empty tables.
    fn with_limits(depth: u32, max_time: Duration) -> (r: Self)
        ensures
            r.wf(),
            r.fresh(),
            r.depth == depth,
            r.max_time == Some(max_time),
    {
        let tt = empty_table(TT_SIZE);
        let history = zero_history();
        let no_killers: [Option<Move>; 2] = [None, None];
        let killers = [no_killers; 64];
        let rep_history = [0u64; 64];
        proof {
            assert forall|p: int, j: int| 0 <= p < 64 && 0 <= j < 2 implies #[trigger] killers[p][j] is None by {
                assert(killers[p] == no_killers);
            }
        }
        Bot {
            depth,
            max_time: Some(max_time),
            killers,
            history,
            rep_history,
            tt,
        }
    }

    /// No depth limit, half a second per move.
    #[allow(clippy::new_without_default)]
    pub fn new() -> (r: Self)
        ensures
            r.wf(),
            r.fresh(),
            r.depth == u32::MAX,
            r.max_time is Some,
    {
        Self::with_limits(u32::MAX, millis(500))
    }

    /// At most `depth` plies, half a second per move.
    pub fn with_depth(depth: u32) -> (r: Self)
        ensures
            r.wf(),
            r.fresh(),
            r.depth == depth,
            r.max_time is Some,
    {
        Self::with_limits(depth, millis(500))
    }

    /// No depth limit, `max_time` per move.
    pub fn with_time(max_time: Duration) -> (r: Self)
        ensures
            r.wf(),
            r.fresh(),
            r.depth == u32::MAX,
            r.max_time == Some(max_time),
    {
        Self::with_limits(u32::MAX, max_time)
    }

    /// The ordering score of `mv` at `ply`: a capture scores the victim's
    /// value less the attacker's plus the promotion piece's value, and
    /// 10000 more when the victim is worth at least the attacker; en passant
    /// 10000; a promotion 9500 plus the new piece's value; a quiet move 9000
    /// or 8000 as the first or second killer of its ply, else its history
    /// score capped at 7000, less its piece's value when a pawn of the other
    /// side guards the target (past the killer table's plies, a move is no
    /// killer).
    pub open spec fn score_spec(&self, v: BoardView, side: Color, mv: Move, ply: int) -> int {
        order_score(self.killers, self.history, v, side, mv, ply)
    }

    /// The ordering score of `mv` at `ply`.
    pub fn score_move(&self, pos: &Position, mv: Move, ply: usize) -> (r: i32)
        requires
            self.wf(),
            pos.wf(),
            mv.from < 64,
            mv.to < 64,
        ensures
            r == self.score_spec(pos.view(), pos.side_to_move, mv, ply as int),
    {
        match mv.flag {
            MoveFlag::Capture | MoveFlag::PromotionCapture => {
                let victim = value_on(pos, mv.to);
                let attacker = value_on(pos, mv.from);
                let promo_bonus = match mv.promotion {
                    Some(p) => piece_value_of(p.idx()),
                    None => 0,
                };
                let mvv_lva = victim - attacker;
                if mvv_lva >= 0 {
                    10_000 + mvv_lva + promo_bonus
                } else {
                    mvv_lva + promo_bonus
                }
            },
            MoveFlag::EnPassant => 10_000,
            MoveFlag::Promotion => 9_500 + match mv.promotion {
                Some(p) => piece_value_of(p.idx()),
                None => 0,
            },
            _ => {
                if ply < MAX_DEPTH {
                    let k = self.killers[ply];
                    if holds(k[0], &mv) {
                        return 9_000;
                    } else if holds(k[1], &mv) {
                        return 8_000;
                    }
                }
                let piece = kind_on(pos, mv.from);
                let h = self.history[piece][mv.to as usize];
                let hist = if h < 7_000 {
                    h
                } else {
                    7_000
                };
                let penalty = if pos.is_attacked_by_pawn(mv.to, pos.side_to_move.opposite()) {
                    piece_value_of(piece)
                } else {
                    0
                };
                hist - penalty
            },
        }
    }

    /// The moves, best ordering score first.
    pub fn order_moves(&self, pos: &Position, moves: Vec<Move>, ply: usize) -> (r: Vec<Move>)
        requires
            self.wf(),
            pos.wf(),
            forall|i: int| 0 <= i < moves@.len() ==> (#[trigger] moves@[i]).from < 64 && moves@[i].to < 64,
        ensures
            same_moves(r@, moves@),
            r@.len() == moves@.len(),
            forall|a: int, b: int| 0 <= a < b < r@.len() ==> self.score_spec(pos.view(), pos.side_to_move, r@[a], ply as int) >= self.score_spec(pos.view(), pos.side_to_move, r@[b], ply as int),
    {
        let mut keys: Vec<i32> = Vec::new();
        let mut i: usize = 0;
        while i < moves.len()
            invariant
                i <= moves.len(),
                keys@.len() == i,
                forall|t: int| 0 <= t < i ==> keys@[t] == self.score_spec(pos.view(), pos.side_to_move, #[trigger] moves@[t], ply as int),
                self.wf(),
                pos.wf(),
                forall|i: int| 0 <= i < moves@.len() ==> (#[trigger] moves@[i]).from < 64 && moves@[i].to < 64,
            decreases moves.len() - i,
        {
            let k = self.score_move(pos, moves[i], ply);
            keys.push(k);
            i = i + 1;
        }
        let ghost k0 = keys@;
        let mut sorted = moves;
        sort_by_keys(&mut sorted, &mut keys);
        proof {
            let f = |m: Move| self.score_spec(pos.view(), pos.side_to_move, m, ply as int);
            assert forall|t: int| 0 <= t < moves@.len() implies k0[t] == f(#[trigger] moves@[t]) by {}
            lemma_keys_follow(moves@, k0, sorted@, keys@, f);
            assert forall|a: int, b: int| 0 <= a < b < sorted@.len() implies self.score_spec(pos.view(), pos.side_to_move, sorted@[a], ply as int) >= self.score_spec(pos.view(), pos.side_to_move, sorted@[b], ply as int) by {
                assert(keys@[a] == f(sorted@[a]));
                assert(keys@[b] == f(sorted@[b]));
            }
        }
        sorted
    }

    /// `mv` caused a cutoff at `ply` with `depth` left; when it is quiet, it
    /// becomes the first killer of the ply (the old first moving to second,
    /// unless it was `mv`), and its piece and target earn `depth` squared of
    /// history, saturating.
    fn record_cutoff(&mut self, pos: &Position, mv: Move, ply: usize, depth: u32)
        requires
            old(self).wf(),
            pos.wf(),
            mv.from < 64,
            mv.to < 64,
            ply < MAX_DEPTH,
            depth <= MAX_DEPTH,
        ensures
            final(self).wf(),
            final(self).depth == old(self).depth,
            final(self).max_time == old(self).max_time,
            final(self).tt == old(self).tt,
            final(self).rep_history == old(self).rep_history,
            mv.flag.is_quiet_flag() ==> (final(self).killers[ply as int][0], final(self).killers[ply as int][1])
                == killers_after(old(self).killers[ply as int], mv),
            mv.flag.is_quiet_flag() ==> final(self).history[cell_kind(pos.view().mailbox[mv.from as int])][mv.to as int]
                == raised(old(self).history[cell_kind(pos.view().mailbox[mv.from as int])][mv.to as int], depth * depth),
            forall|p: int| 0 <= p < 64 && (p != ply || !mv.flag.is_quiet_flag()) ==> #[trigger] final(self).killers[p]
                == old(self).killers[p],
            forall|k: int, t: int|
                0 <= k < 6 && 0 <= t < 64 && !(mv.flag.is_quiet_flag() && k == cell_kind(pos.view().mailbox[mv.from as int])
                    && t == mv.to) ==> #[trigger] final(self).history[k][t] == old(self).history[k][t],
    {
        let quiet = match mv.flag {
            MoveFlag::Quiet | MoveFlag::DoublePawnPush | MoveFlag::KingCastle | MoveFlag::QueenCastle => true,
            _ => false,
        };
        if quiet {
            let mut k = self.killers[ply];
            if !holds(k[0], &mv) {
                k[1] = k[0];
                k[0] = Some(mv);
            }
            self.killers[ply] = k;
            let piece = kind_on(pos, mv.from);
            proof {
                assert(depth * depth <= 4096) by (nonlinear_arith)
                    requires
                        depth <= 64,
                ;
            }
            let bonus = (depth * depth) as i32;
            let mut row = self.history[piece];
            let old = row[mv.to as usize];
            row[mv.to as usize] = if old > i32::MAX - bonus {
                i32::MAX
            } else {
                old + bonus
            };
            let ghost before = self.history;
            self.history[piece] = row;
            proof {
                assert forall|kk: int, s: int| 0 <= kk < 6 && 0 <= s < 64 implies 0 <= #[trigger] self.history[kk][s] by {
                    if kk != piece {
                        assert(self.history[kk] == before[kk]);
                    }
                }
            }
        }
    }

    /// Stores an entry, its score kept within the bound.
    fn store(&mut self, idx: usize, hash: u64, depth: u32, score: i32, flag: TTFlag, best_move: Option<Move>)
        requires
            old(self).wf(),
            idx < TT_SIZE,
        ensures
            final(self).wf(),
            final(self).depth == old(self).depth,
            final(self).max_time == old(self).max_time,
            final(self).tt@ == old(self).tt@.update(
                idx as int,
                TTEntry { hash, depth, score: clamp_score(score), flag, best_move },
            ),
            final(self).killers == old(self).killers,
            final(self).history == old(self).history,
            final(self).rep_history == old(self).rep_history,
    {
        let e = TTEntry { hash, depth, score: bounded(score), flag, best_move };
        self.tt.set(idx, e);
    }

}

/// The ordering score of `mv` at `ply` with the killer table `killers` and
/// the history table `history`, as `score_spec` says.
pub open spec fn order_score(
    killers: [[Option<Move>; 2]; 64],
    history: [[i32; 64]; 6],
    v: BoardView,
    side: Color,
    mv: Move,
    ply: int,
) -> int {
    if mv.flag == MoveFlag::Capture || mv.flag == MoveFlag::PromotionCapture {
        let d = cell_value(v.mailbox[mv.to as int]) - cell_value(v.mailbox[mv.from as int]);
        if d >= 0 {
            10_000 + d + promo_value(mv.promotion)
        } else {
            d + promo_value(mv.promotion)
        }
    } else if mv.flag == MoveFlag::EnPassant {
        10_000
    } else if mv.flag == MoveFlag::Promotion {
        9_500 + promo_value(mv.promotion)
    } else if ply < MAX_DEPTH && killers[ply][0] == Some(mv) {
        9_000
    } else if ply < MAX_DEPTH && killers[ply][1] == Some(mv) {
        8_000
    } else {
        let piece = cell_kind(v.mailbox[mv.from as int]);
        let h = history[piece][mv.to as int] as int;
        let hist = if h < 7_000 { h } else { 7_000 };
        hist - if pawn_guards(v, side.other().index(), mv.to as int) { piece_value(piece) } else { 0 }
    }
}

/// `f` lists the moves the quiescence search tries at `p` once each, by
/// descending ordering score with the killers `k` and history `h` at `ply`.
pub open spec fn q_sorted(k: [[Option<Move>; 2]; 64], h: [[i32; 64]; 6], p: Position, ply: int, f: Seq<Move>) -> bool {
    &&& f.no_duplicates()
    &&& forall|m: Move| #[trigger] f.contains(m) <==> candidate(p, m)
    &&& forall|a: int, b: int|
        0 <= a < b < f.len() ==> order_score(k, h, p.view(), p.side_to_move, f[a], ply) >= order_score(
            k,
            h,
            p.view(),
            p.side_to_move,
            f[b],
            ply,
        )
}

/// The moves the quiescence search tries at `p`: every legal move when in
/// check, else the noisy ones.
pub open spec fn candidate(p: Position, m: Move) -> bool {
    legal(p, m) && (in_check_at(node_of(p)) || is_noisy(m))
}

/// Whether move `m` is skipped at `p` with the running `alpha` `ai`: not in
/// check, the material balance with the victim, the promotion and the
/// margin stays below `ai`.
pub open spec fn pruned(p: Position, m: Move, ai: int) -> bool {
    &&& !in_check_at(node_of(p))
    &&& material_eval(node_of(p)) + cell_value(p.view().mailbox[m.to as int]) + promo_value(m.promotion) + DELTA_MARGIN < ai
}

/// `alpha` raised to the material balance when not in check: where the
/// quiescence search of `p` starts.
pub open spec fn stand_lo(p: Position, alpha: int) -> int {
    let n = node_of(p);
    if !in_check_at(n) && material_eval(n) > alpha {
        material_eval(n)
    } else {
        alpha
    }
}

/// The running `alpha` from `lo` after the moves `ms` with the results
/// `rs`, the skipped moves counting for nothing.
pub open spec fn q_run(p: Position, lo: int, ms: Seq<Move>, rs: Seq<int>) -> int
    decreases ms.len(),
{
    if ms.len() == 0 {
        lo
    } else {
        let b = q_run(p, lo, ms.drop_last(), rs.drop_last());
        if pruned(p, ms.last(), b) {
            b
        } else if -rs.last() > b {
            -rs.last()
        } else {
            b
        }
    }
}

/// Move `m` of `p`, searched by the quiescence search at `ply + 1` in the
/// window (`alpha`, `beta`), gave `r`.
pub open spec fn q_child(
    k: [[Option<Move>; 2]; 64],
    h: [[i32; 64]; 6],
    p: Position,
    m: Move,
    ply: int,
    alpha: int,
    beta: int,
    r: int,
) -> bool
    decreases QUIESCENCE_PLY_CAP - ply, 0int, 0int,
{
    if ply >= QUIESCENCE_PLY_CAP {
        false
    } else {
        exists|q: Position, u: Undo| #![trigger made(p, m, q, u)] made(p, m, q, u) && quiesced(k, h, q, ply + 1, alpha, beta, r)
    }
}

/// The moves `ms` of `p` were tried in turn, each once, from `lo`: each
/// skipped, or searched in the window that the running `alpha` and `beta`
/// make, with the result `rs` (negated) below `beta`.
pub open spec fn q_trail(
    k: [[Option<Move>; 2]; 64],
    h: [[i32; 64]; 6],
    p: Position,
    ply: int,
    beta: int,
    lo: int,
    ms: Seq<Move>,
    rs: Seq<int>,
) -> bool
    decreases QUIESCENCE_PLY_CAP - ply, 1int, ms.len(),
{
    if ms.len() == 0 {
        rs.len() == 0
    } else {
        let b = q_run(p, lo, ms.drop_last(), rs.drop_last());
        let m = ms.last();
        &&& rs.len() == ms.len()
        &&& q_trail(k, h, p, ply, beta, lo, ms.drop_last(), rs.drop_last())
        &&& candidate(p, m)
        &&& !ms.drop_last().contains(m)
        &&& (pruned(p, m, b) || (q_child(k, h, p, m, ply, -beta, -b, rs.last()) && -rs.last() < beta))
    }
}

/// How the quiescence search of `p` ends after the moves `ms`: with a
/// further move `mc` (not skipped) whose result `rc` reached `beta`,
/// `beta`; else every move it tries was tried and the running `alpha` is
/// the result.
pub open spec fn q_closes(
    p: Position,
    lo: int,
    beta: int,
    f: Seq<Move>,
    ms: Seq<Move>,
    rs: Seq<int>,
    cut: bool,
    mc: Move,
    rc: int,
    r: int,
) -> bool {
    &&& ms == f.take(ms.len() as int)
    &&& cut ==> ms.len() < f.len() && mc == f[ms.len() as int]
    &&& if cut {
        &&& candidate(p, mc)
        &&& !ms.contains(mc)
        &&& !pruned(p, mc, q_run(p, lo, ms, rs))
        &&& -rc >= beta
        &&& r == beta
    } else {
        &&& forall|m: Move| #[trigger] candidate(p, m) ==> ms.contains(m)
        &&& r == q_run(p, lo, ms, rs)
    }
}

/// What the quiescence search at `ply` in the window (`alpha`, `beta`)
/// gives for `p` with the killers `k` and history `h` (short of the
/// deadline), the moves tried in the order `q_sorted` gives:
/// past the cap the material balance held to the window; when mated
/// `-CHECKMATE_SCORE`; when not in check and the balance reaches `beta`,
/// `beta`; else, from `stand_lo`, what the moves tried in turn give.
pub open spec fn quiesced(
    k: [[Option<Move>; 2]; 64],
    h: [[i32; 64]; 6],
    p: Position,
    ply: int,
    alpha: int,
    beta: int,
    r: int,
) -> bool
    decreases QUIESCENCE_PLY_CAP - ply, 2int, 0int,
{
    let n = node_of(p);
    let ev = material_eval(n);
    if ply >= QUIESCENCE_PLY_CAP {
        r == (if ev >= beta { beta } else if ev > alpha { ev } else { alpha })
    } else if in_check_at(n) && no_legal_move(p) {
        r == -CHECKMATE_SCORE
    } else if !in_check_at(n) && ev >= beta {
        r == beta
    } else {
        exists|f: Seq<Move>, ms: Seq<Move>, rs: Seq<int>, cut: bool, mc: Move, rc: int|
            #[trigger] q_closes(p, stand_lo(p, alpha), beta, f, ms, rs, cut, mc, rc, r) && q_sorted(k, h, p, ply, f) && q_trail(
                k,
                h,
                p,
                ply,
                beta,
                stand_lo(p, alpha),
                ms,
                rs,
            ) && (cut ==> q_child(k, h, p, mc, ply, -beta, -q_run(p, stand_lo(p, alpha), ms, rs), rc))
    }
}

/// The trail of the first `i` moves of `ms` extended by the next, skipped
/// or searched with the result `r`.
proof fn lemma_q_push(
    k: [[Option<Move>; 2]; 64],
    h: [[i32; 64]; 6],
    p: Position,
    ply: int,
    beta: int,
    lo: int,
    ms: Seq<Move>,
    rs: Seq<int>,
    i: int,
    r: int,
)
    requires
        0 <= i < ms.len(),
        rs.len() == i,
        ms.no_duplicates(),
        q_trail(k, h, p, ply, beta, lo, ms.take(i), rs),
        candidate(p, ms[i]),
        pruned(p, ms[i], q_run(p, lo, ms.take(i), rs)) || (q_child(k, h, p, ms[i], ply, -beta, -q_run(p, lo, ms.take(i), rs), r) && -r < beta),
    ensures
        q_trail(k, h, p, ply, beta, lo, ms.take(i + 1), rs.push(r)),
        q_run(p, lo, ms.take(i + 1), rs.push(r)) == (if pruned(p, ms[i], q_run(p, lo, ms.take(i), rs)) {
            q_run(p, lo, ms.take(i), rs)
        } else if -r > q_run(p, lo, ms.take(i), rs) {
            -r
        } else {
            q_run(p, lo, ms.take(i), rs)
        }),
{
    let t = ms.take(i + 1);
    assert(t.drop_last() =~= ms.take(i));
    assert(rs.push(r).drop_last() =~= rs);
    assert(t.last() == ms[i]);
    assert(!ms.take(i).contains(ms[i])) by {
        if ms.take(i).contains(ms[i]) {
            let k = choose|k: int| 0 <= k < i && ms.take(i)[k] == ms[i];
            assert(ms[k] == ms[i]);
        }
    }
}


/// The best of `a` and the children's results `rs` negated, in turn: the
/// `alpha` of a search after those children.
pub open spec fn run_alpha(a: int, rs: Seq<int>) -> int
    decreases rs.len(),
{
    if rs.len() == 0 {
        a
    } else {
        let b = run_alpha(a, rs.drop_last());
        if -rs.last() > b {
            -rs.last()
        } else {
            b
        }
    }
}

/// The tables a search reads and writes: the transposition table, the
/// killer moves and the history scores.
pub type Tables = (Seq<TTEntry>, [[Option<Move>; 2]; 64], [[i32; 64]; 6]);

/// The killers `k2` and history `h2` are `k1` and `h1` after a cutoff by
/// `mv` at `ply` with `depth` left on the board `v`: for a quiet move, it
/// becomes the first killer of the ply and its piece and target earn
/// `depth` squared of history; nothing else changes.
pub open spec fn recorded(
    k1: [[Option<Move>; 2]; 64],
    h1: [[i32; 64]; 6],
    v: BoardView,
    mv: Move,
    ply: int,
    depth: u32,
    k2: [[Option<Move>; 2]; 64],
    h2: [[i32; 64]; 6],
) -> bool {
    let quiet = mv.flag.is_quiet_flag();
    let piece = cell_kind(v.mailbox[mv.from as int]);
    &&& quiet ==> (k2[ply][0], k2[ply][1]) == killers_after(k1[ply], mv)
    &&& quiet ==> h2[piece][mv.to as int] == raised(h1[piece][mv.to as int], depth * depth)
    &&& forall|q: int| 0 <= q < 64 && (q != ply || !quiet) ==> #[trigger] k2[q] == k1[q]
    &&& forall|k: int, t: int|
        0 <= k < 6 && 0 <= t < 64 && !(quiet && k == piece && t == mv.to) ==> #[trigger] h2[k][t] == h1[k][t]
}

/// `s` lists the legal moves of `p` once each, by descending ordering
/// score with the killers `k` and history `h` at `ply`.
pub open spec fn sorted_moves(k: [[Option<Move>; 2]; 64], h: [[i32; 64]; 6], p: Position, ply: int, s: Seq<Move>) -> bool {
    &&& s.no_duplicates()
    &&& forall|m: Move| #[trigger] s.contains(m) <==> legal(p, m)
    &&& forall|a: int, b: int|
        0 <= a < b < s.len() ==> order_score(k, h, p.view(), p.side_to_move, s[a], ply) >= order_score(
            k,
            h,
            p.view(),
            p.side_to_move,
            s[b],
            ply,
        )
}

/// `f` is the order in which a search of `p` at `ply` tries its moves: the
/// legal moves by descending ordering score (with the killers `k` and
/// history `h`), the table's move for `p` (from entry `e` about hash `hs`)
/// swapped to the front when there is one among them.
pub open spec fn move_order(
    k: [[Option<Move>; 2]; 64],
    h: [[i32; 64]; 6],
    p: Position,
    ply: int,
    e: TTEntry,
    hs: u64,
    f: Seq<Move>,
) -> bool {
    exists|s: Seq<Move>, i: int|
        #![trigger sorted_moves(k, h, p, ply, s), s[i]]
        sorted_moves(k, h, p, ply, s) && (if e.hash == hs && e.best_move is Some && s.contains(e.best_move.unwrap()) {
            0 <= i < s.len() && s[i] == e.best_move.unwrap() && f == s.update(0, s[i]).update(i, s[0])
        } else {
            f == s
        })
}

/// Move `m` of `p`, searched with the tables `tt` and the line `path` to
/// `depth - 1` plies in the window (`alpha`, `beta`), gave `r` and left the
/// tables `tt2`.
pub open spec fn child_ok(
    tt: Tables,
    path: Seq<u64>,
    p: Position,
    m: Move,
    depth: u32,
    ply: int,
    alpha: int,
    beta: int,
    r: int,
    tt2: Tables,
) -> bool
    decreases depth, 0int, 0int,
{
    if depth == 0 {
        false
    } else {
        exists|q: Position, u: Undo| #![trigger made(p, m, q, u)] made(p, m, q, u) && searched(tt, path, q, (depth - 1) as u32, ply + 1, alpha, beta, r, tt2)
    }
}

/// The moves `ms` of `p` were searched in turn from the tables `tt`, each
/// once: the first in the window that `a` and `beta` make; each later one
/// first in the null window above the running `alpha` (result `zs`, tables
/// `us` after it), and again in the full window when that result landed
/// strictly inside it; `rs` are the results kept and `ts` the tables
/// between the moves. None but the last reached `beta`.
pub open spec fn trail_ok(
    tt: Tables,
    path: Seq<u64>,
    p: Position,
    depth: u32,
    ply: int,
    beta: int,
    a: int,
    ms: Seq<Move>,
    rs: Seq<int>,
    ts: Seq<Tables>,
    zs: Seq<int>,
    us: Seq<Tables>,
) -> bool
    decreases depth, 1int, ms.len(),
{
    if ms.len() == 0 {
        rs.len() == 0 && zs.len() == 0 && us.len() == 0 && ts.len() == 1 && ts[0] == tt
    } else {
        let k = ms.len() - 1;
        let ai = run_alpha(a, rs.drop_last());
        let line = path.push(zobrist_spec(p));
        &&& rs.len() == ms.len()
        &&& zs.len() == ms.len()
        &&& us.len() == ms.len()
        &&& ts.len() == ms.len() + 1
        &&& trail_ok(tt, path, p, depth, ply, beta, a, ms.drop_last(), rs.drop_last(), ts.drop_last(), zs.drop_last(), us.drop_last())
        &&& legal(p, ms.last())
        &&& !ms.drop_last().contains(ms.last())
        &&& (k > 0 ==> -rs[k - 1] < beta)
        &&& if k == 0 {
            child_ok(ts[k], line, p, ms.last(), depth, ply, -beta, -ai, rs.last(), ts.last())
        } else {
            &&& child_ok(ts[k], line, p, ms.last(), depth, ply, -ai - 1, -ai, zs.last(), us.last())
            &&& if ai < -zs.last() < beta {
                child_ok(us.last(), line, p, ms.last(), depth, ply, -beta, -ai, rs.last(), ts.last())
            } else {
                rs.last() == zs.last() && ts.last() == us.last()
            }
        }
    }
}

/// How a search of `p` at `ply` that tried the first moves `ms` of the
/// order `f` ends, from the tables `tt`: a cutoff by the last gives
/// `beta`, records it as `recorded` says and stores it as a lower bound
/// with that move; else every legal move was tried, the running `alpha` is
/// the result, stored as exact when it rose above `a` and as an upper
/// bound when not.
pub open spec fn closes(
    tt: Tables,
    p: Position,
    depth: u32,
    ply: int,
    beta: int,
    a: int,
    f: Seq<Move>,
    ms: Seq<Move>,
    rs: Seq<int>,
    zs: Seq<int>,
    us: Seq<Tables>,
    r: int,
    tt2: Tables,
) -> bool {
    let h = zobrist_spec(p);
    let slot = (h % 0x100000) as int;
    &&& ms.len() > 0
    &&& ms == f.take(ms.len() as int)
    &&& zs.len() == ms.len()
    &&& us.len() == ms.len()
    &&& if -rs.last() >= beta {
        &&& r == beta
        &&& recorded(tt.1, tt.2, p.view(), ms.last(), ply, depth, tt2.1, tt2.2)
        &&& tt2.0 == tt.0.update(
            slot,
            TTEntry {
                hash: h,
                depth,
                score: clamp_score(beta as i32),
                flag: TTFlag::LowerBound,
                best_move: Some(ms.last()),
            },
        )
    } else {
        &&& forall|m: Move| #[trigger] legal(p, m) ==> ms.contains(m)
        &&& r == run_alpha(a, rs)
        &&& tt2.1 == tt.1
        &&& tt2.2 == tt.2
        &&& tt2.0 == tt.0.update(slot, tt2.0[slot])
        &&& tt2.0[slot].hash == h
        &&& tt2.0[slot].depth == depth
        &&& tt2.0[slot].score == clamp_score(r as i32)
        &&& tt2.0[slot].flag == (if r > a { TTFlag::Exact } else { TTFlag::UpperBound })
    }
}

/// What the search of `p` to `depth` at `ply` in the window (`alpha`,
/// `beta`), with the tables `tt` and the hashes `path` of the line before
/// it, gives (`r`) and leaves in the tables (`tt2`):
/// `repetition_score` of the material balance for a position repeated an
/// even number of plies back; a usable entry's answer; at depth 0 what the
/// quiescence search gives in the window raised by a usable lower bound;
/// the mate or stalemate score without a legal move; else what the moves
/// searched in turn, in `move_order`, give.
pub open spec fn searched(
    tt: Tables,
    path: Seq<u64>,
    p: Position,
    depth: u32,
    ply: int,
    alpha: int,
    beta: int,
    r: int,
    tt2: Tables,
) -> bool
    decreases depth, 2int, 0int,
{
    let h = zobrist_spec(p);
    let e = slot_entry(tt.0, p);
    let n = node_of(p);
    let answer = table_answer(e, h, depth, alpha as i32, beta as i32);
    let a = table_alpha(e, h, depth, alpha as i32) as int;
    if repeated(path, ply, h) {
        r == repetition_score(material_eval(n)) && tt2 == tt
    } else if answer is Some {
        r == answer.unwrap() && tt2 == tt
    } else if depth == 0 {
        quiesced(tt.1, tt.2, p, ply, a, beta, r) && tt2 == tt
    } else if no_legal_move(p) {
        r == (if in_check_at(n) { -CHECKMATE_SCORE } else { 0 }) && tt2 == tt
    } else {
        exists|f: Seq<Move>, ms: Seq<Move>, rs: Seq<int>, ts: Seq<Tables>, zs: Seq<int>, us: Seq<Tables>|
            move_order(tt.1, tt.2, p, ply, e, h, f) && trail_ok(tt, path, p, depth, ply, beta, a, ms, rs, ts, zs, us)
                && #[trigger] closes(ts.last(), p, depth, ply, beta, a, f, ms, rs, zs, us, r, tt2)
    }
}

impl Bot {
    /// The search of captures and promotions (of every move when in check)
    /// until the position is quiet, fail-hard in the window (`alpha`,
    /// `beta`): when not in check the side to move may stand on the material
    /// balance, and a capture that could not lift it to `alpha` with its
    /// victim, its promotion and a margin of 200 is skipped. Returns
    /// `TIMEOUT` once the deadline passes, `-CHECKMATE_SCORE` when mated.
    /// Past `QUIESCENCE_PLY_CAP` plies the material balance stands, held to
    /// the window. The position is left as it was.
    #[verifier::rlimit(80)]
    #[verifier::spinoff_prover]
    pub fn quiescence(&mut self, pos: &mut Position, ply: usize, alpha: i32, beta: i32, deadline: Instant) -> (r: i32)
        requires
            old(self).wf(),
            sound(*old(pos)),
            ply <= QUIESCENCE_PLY_CAP,
            old(pos).halfmove_clock + (QUIESCENCE_PLY_CAP - ply) < u32::MAX,
            -WINDOW_BOUND - ply <= alpha <= WINDOW_BOUND + ply,
            -WINDOW_BOUND - ply <= beta <= WINDOW_BOUND + ply,
        ensures
            final(self).wf(),
            final(self).depth == old(self).depth,
            final(self).max_time == old(self).max_time,
            final(self).tt == old(self).tt,
            final(self).rep_history == old(self).rep_history,
            final(self).killers == old(self).killers,
            final(self).history == old(self).history,
            r == TIMEOUT || -WINDOW_BOUND - ply <= r <= WINDOW_BOUND + ply,
            r == TIMEOUT || quiesced(old(self).killers, old(self).history, *old(pos), ply as int, alpha as int, beta as int, r as int),
            node_of(*final(pos)) == node_of(*old(pos)),
            sound(*final(pos)),
            final(pos).halfmove_clock == old(pos).halfmove_clock,
            final(pos).zobrist_keys == old(pos).zobrist_keys,
            final(pos).fullmove_count == old(pos).fullmove_count,
        decreases QUIESCENCE_PLY_CAP - ply,
    {
        let ghost p0 = *pos;
        let ghost n0 = node_of(p0);
        if time_is_up(&deadline) {
            return TIMEOUT;
        }
        proof {
            crate::eval::lemma_material_bound(pos.view());
        }
        if ply >= QUIESCENCE_PLY_CAP {
            let e = evaluate_material(pos);
            return if e >= beta {
                beta
            } else if e > alpha {
                e
            } else {
                alpha
            };
        }
        let in_check = pos.is_in_check(pos.side_to_move);
        let ghost alpha_in = alpha as int;
        let mut alpha = alpha;
        if !in_check {
            let stand_pat = evaluate_material(pos);
            if stand_pat >= beta {
                return beta;
            }
            if stand_pat > alpha {
                alpha = stand_pat;
            }
        }
        let ghost lo = alpha as int;
        proof {
            assert(in_check == in_check_at(n0));
            assert(lo == stand_lo(p0, alpha_in));
        }
        let all_moves = pos.get_legal_moves();
        if all_moves.len() == 0 {
            proof {
                assert forall|m: Move| !#[trigger] legal(p0, m) by {
                    assert(!all_moves@.contains(m));
                }
            }
            proof {
                assert(q_trail(old(self).killers, old(self).history, p0, ply as int, beta as int, lo, Seq::empty(), Seq::empty()));
                assert(Seq::<Move>::empty().take(0) =~= Seq::<Move>::empty());
                assert(q_closes(p0, lo, beta as int, Seq::empty(), Seq::empty(), Seq::empty(), false, arbitrary(), 0, alpha as int));
                assert forall|m: Move| #[trigger] Seq::<Move>::empty().contains(m) <==> candidate(p0, m) by {
                    assert(!all_moves@.contains(m));
                }
                assert(q_sorted(old(self).killers, old(self).history, p0, ply as int, Seq::empty()));
            }
            return if in_check {
                -CHECKMATE_SCORE
            } else {
                alpha
            };
        }
        let candidates = if !in_check {
            noisy_moves(&all_moves)
        } else {
            all_moves
        };
        proof {
            assert forall|i: int| 0 <= i < candidates@.len() implies (#[trigger] candidates@[i]).from < 64 && candidates@[i].to < 64 by {
                assert(candidates@.contains(candidates@[i]));
                assert(all_moves@.contains(candidates@[i]));
                lemma_pseudo_fits(p0, candidates@[i]);
            }
        }
        let moves = self.order_moves(pos, candidates, ply);
        proof {
            lemma_same_moves(moves@, candidates@);
            assert forall|m: Move| #[trigger] candidate(p0, m) <==> moves@.contains(m) by {
                assert(moves@.contains(m) <==> candidates@.contains(m));
                if !in_check {
                    assert(candidates@.contains(m) <==> all_moves@.contains(m) && is_noisy(m));
                }
            }
        }
        let ghost mut rs: Seq<int> = Seq::empty();
        proof {
            assert(all_moves@.contains(all_moves@[0]));
            assert(!no_legal_move(p0));
        }
        let mut i: usize = 0;
        #[verifier::loop_isolation(false)]
        while i < moves.len()
            invariant
                i <= moves.len(),
                alpha == lo || lo < alpha < beta,
                i == 0 ==> alpha == lo,
                rs.len() == i,
                alpha as int == q_run(p0, lo, moves@.take(i as int), rs),
                q_trail(old(self).killers, old(self).history, p0, ply as int, beta as int, lo, moves@.take(i as int), rs),
                forall|m: Move| #[trigger] candidate(p0, m) <==> moves@.contains(m),
                moves@.no_duplicates(),
                ply < QUIESCENCE_PLY_CAP,
                p0 == *old(pos),
                n0 == node_of(p0),
                p0.halfmove_clock + (QUIESCENCE_PLY_CAP - ply) < u32::MAX,
                forall|m: Move| #[trigger] moves@.contains(m) ==> legal(p0, m),
                -WINDOW_BOUND - ply <= alpha <= WINDOW_BOUND + ply,
                -WINDOW_BOUND - ply <= beta <= WINDOW_BOUND + ply,
                self.wf(),
                self.depth == old(self).depth,
                self.max_time == old(self).max_time,
                self.tt == old(self).tt,
                self.rep_history == old(self).rep_history,
                self.killers == old(self).killers,
                self.history == old(self).history,
                q_sorted(old(self).killers, old(self).history, p0, ply as int, moves@),
                node_of(*pos) == n0,
                sound(*pos),
                pos.halfmove_clock == p0.halfmove_clock,
                pos.zobrist_keys == p0.zobrist_keys,
                pos.fullmove_count == p0.fullmove_count,
            decreases moves.len() - i,
        {
            let mv = moves[i];
            let ghost q0 = *pos;
            proof {
                assert(moves@.contains(mv));
                assert(legal(q0, mv));
                lemma_pseudo_fits(q0, mv);
                crate::eval::lemma_material_bound(pos.view());
            }
            if !in_check {
                let victim_value = value_on(pos, mv.to);
                let promo = match mv.promotion {
                    Some(p) => piece_value_of(p.idx()),
                    None => 0,
                };
                if evaluate_material(pos) + victim_value + promo + DELTA_MARGIN < alpha {
                    proof {
                        assert(pruned(p0, mv, alpha as int));
                        lemma_q_push(old(self).killers, old(self).history, p0, ply as int, beta as int, lo, moves@, rs, i as int, 0);
                        rs = rs.push(0);
                    }
                    i = i + 1;
                    continue;
                }
            }
            let undo = pos.make_move(mv);
            let ghost q = *pos;
            proof {
                lemma_legal_keeps_sound(q0, mv, q, undo);
            }
            proof {
                assert(made(p0, mv, q, undo));
                assert(!pruned(p0, mv, alpha as int));
            }
            let raw = self.quiescence(pos, ply + 1, -beta, -alpha, deadline);
            proof {
                if raw != TIMEOUT {
                    assert(q_child(old(self).killers, old(self).history, p0, mv, ply as int, -beta, -(alpha as int), raw as int));
                }
            }
            let ghost q1 = *pos;
            pos.undo_move(mv, undo);
            proof {
                lemma_back(q0, mv, q, q1, undo, *pos);
            }
            if raw == TIMEOUT {
                return TIMEOUT;
            }
            let score = -raw;
            if score >= beta {
                proof {
                    assert(moves@.take(i as int).contains(mv) ==> false) by {
                        if moves@.take(i as int).contains(mv) {
                            let k = choose|k: int| 0 <= k < i && moves@.take(i as int)[k] == mv;
                            assert(moves@[k] == moves@[i as int]);
                        }
                    }
                    assert(q_closes(p0, lo, beta as int, moves@, moves@.take(i as int), rs, true, mv, raw as int, beta as int));
                }
                return beta;
            }
            proof {
                lemma_q_push(old(self).killers, old(self).history, p0, ply as int, beta as int, lo, moves@, rs, i as int, raw as int);
                rs = rs.push(raw as int);
            }
            if score > alpha {
                alpha = score;
            }
            i = i + 1;
        }
        proof {
            assert(moves@.take(moves.len() as int) =~= moves@);
            assert(q_closes(p0, lo, beta as int, moves@, moves@.take(moves.len() as int), rs, false, arbitrary(), 0, alpha as int));
        }
        alpha
    }

    /// The principal-variation search, fail-hard in the window (`alpha`,
    /// `beta`): a position met before along the line (an even number of
    /// plies back) scores 50 for the side behind in material (-50 for the
    /// side ahead, 0 when level); a table entry deep enough answers when its
    /// bound does; at depth 0 the quiescence search answers; else the moves
    /// are ordered (the table's move first), the first searched in the full
    /// window and the others in a null window, re-searched in full when they
    /// land inside it; a cutoff records a killer and history and stores a
    /// lower bound, and otherwise the result is stored as exact or an upper
    /// bound. Returns `TIMEOUT` once the deadline passes. The position is
    /// left as it was.
    #[verifier::rlimit(100)]
    #[verifier::spinoff_prover]
    pub fn negamax(&mut self, pos: &mut Position, depth: u32, ply: usize, alpha: i32, beta: i32, deadline: Instant) -> (r: i32)
        requires
            old(self).wf(),
            sound(*old(pos)),
            ply + depth < MAX_DEPTH,
            old(pos).halfmove_clock + depth + QUIESCENCE_PLY_CAP < u32::MAX,
            -WINDOW_BOUND - ply <= alpha <= WINDOW_BOUND + ply,
            -WINDOW_BOUND - ply <= beta <= WINDOW_BOUND + ply,
        ensures
            final(self).wf(),
            final(self).depth == old(self).depth,
            final(self).max_time == old(self).max_time,
            r == TIMEOUT || -WINDOW_BOUND - ply <= r <= WINDOW_BOUND + ply,
            node_of(*final(pos)) == node_of(*old(pos)),
            sound(*final(pos)),
            final(pos).halfmove_clock == old(pos).halfmove_clock,
            final(pos).zobrist_keys == old(pos).zobrist_keys,
            final(pos).fullmove_count == old(pos).fullmove_count,
            r != TIMEOUT ==> searched(
                old(self).tables(),
                old(self).rep_history@.take(ply as int),
                *old(pos),
                depth,
                ply as int,
                alpha as int,
                beta as int,
                r as int,
                final(self).tables(),
            ),
            forall|j: int| 0 <= j < ply ==> #[trigger] final(self).rep_history[j] == old(self).rep_history[j],
        decreases depth,
    {
        let ghost p0 = *pos;
        let ghost n0 = node_of(p0);
        let ghost alpha_in = alpha;
        if time_is_up(&deadline) {
            return TIMEOUT;
        }
        let hash = pos.zobrist_hash();
        let ghost reps0 = self.rep_history@;
        self.rep_history[ply] = hash;
        let mut k: usize = 0;
        #[verifier::loop_isolation(false)]
        while k < ply
            invariant
                ply < MAX_DEPTH,
                k <= ply + 1,
                k % 2 == 0,
                forall|j: int| 0 <= j < k && j < ply && j % 2 == 0 ==> #[trigger] reps0[j] != hash,
            decreases ply + 1 - k,
        {
            if self.rep_history[k] == hash {
                proof {
                    assert(reps0[k as int] == hash);
                    assert(reps0.take(ply as int)[k as int] == hash);
                }
                let eval = evaluate_material(pos);
                return if eval > 0 {
                    -50
                } else if eval < 0 {
                    50
                } else {
                    0
                };
            }
            k = k + 2;
        }
        let ghost path0 = reps0.take(ply as int);
        let ghost path1 = path0.push(hash);
        proof {
            assert(!repeated(reps0, ply as int, hash));
            assert forall|j: int| 0 <= j < ply implies #[trigger] path0[j] == reps0[j] by {}
            assert(!repeated(path0, ply as int, hash));
        }
        let tt_idx = tt_index(hash);
        let tt_entry = self.tt[tt_idx];
        proof {
            assert(-SCORE_BOUND <= self.tt@[tt_idx as int].score <= SCORE_BOUND);
        }
        let mut tt_move: Option<Move> = None;
        let mut a = alpha;
        if tt_entry.hash == hash {
            tt_move = tt_entry.best_move;
            if tt_entry.depth >= depth {
                let score = tt_entry.score;
                match tt_entry.flag {
                    TTFlag::Exact => {
                        return score;
                    },
                    TTFlag::LowerBound => {
                        if score >= beta {
                            return score;
                        }
                        if score > a {
                            a = score;
                        }
                    },
                    TTFlag::UpperBound => {
                        if score <= a {
                            return score;
                        }
                    },
                }
            }
        }
        let ghost a0 = a;
        proof {
            assert(tt_entry == slot_entry(old(self).tt@, p0));
            assert(old(self).tables().0 == old(self).tt@);
            assert(table_answer(tt_entry, hash, depth, alpha_in, beta) is None);
            assert(a0 == table_alpha(tt_entry, hash, depth, alpha_in));
        }
        if depth == 0 {
            return self.quiescence(pos, ply, a, beta, deadline);
        }
        let legal_moves = pos.get_legal_moves();
        if legal_moves.len() == 0 {
            proof {
                assert forall|m: Move| !#[trigger] legal(p0, m) by {
                    assert(!legal_moves@.contains(m));
                }
            }
            let check = pos.is_in_check(pos.side_to_move);
            return if check {
                -CHECKMATE_SCORE
            } else {
                0
            };
        }
        proof {
            assert forall|i: int| 0 <= i < legal_moves@.len() implies (#[trigger] legal_moves@[i]).from < 64 && legal_moves@[i].to < 64 by {
                assert(legal_moves@.contains(legal_moves@[i]));
                lemma_pseudo_fits(p0, legal_moves@[i]);
            }
        }
        let mut moves = self.order_moves(pos, legal_moves, ply);
        let ghost sorted0 = moves@;
        let ghost mut i_sw: int = 0;
        proof {
            lemma_same_moves(moves@, legal_moves@);
            assert forall|m: Move| #[trigger] legal(p0, m) implies moves@.contains(m) by {
                assert(legal_moves@.contains(m));
            }
            assert forall|m: Move| #[trigger] moves@.contains(m) implies legal(p0, m) by {
                assert(legal_moves@.contains(m));
            }
            assert(sorted_moves(self.killers, self.history, p0, ply as int, sorted0));
        }
        if let Some(tm) = tt_move {
            if let Some(idx) = index_of(&moves, &tm) {
                let ghost before = moves@;
                swap_moves(&mut moves, 0, idx);
                proof {
                    i_sw = idx as int;
                    lemma_same_moves(moves@, before);
                }
            }
        }
        proof {
            assert(legal_moves@.contains(legal_moves@[0]));
            assert(!no_legal_move(p0));
            let e = slot_entry(old(self).tt@, p0);
            assert(e == tt_entry);
            if e.hash == hash && e.best_move is Some && sorted0.contains(e.best_move.unwrap()) {
                assert(0 <= i_sw < sorted0.len() && sorted0[i_sw] == e.best_move.unwrap() && moves@ == sorted0.update(0, sorted0[i_sw]).update(i_sw, sorted0[0]));
            } else {
                assert(moves@ == sorted0);
            }
            let wit = sorted0[i_sw];
            assert(move_order(self.killers, self.history, p0, ply as int, e, hash, moves@));
        }
        let alpha_at_entry = a;
        let mut best_move_found: Option<Move> = None;
        let ghost tt0 = self.tables();
        let ghost mut rs: Seq<int> = Seq::empty();
        let ghost mut ts: Seq<Tables> = seq![tt0];
        let ghost mut zs: Seq<int> = Seq::empty();
        let ghost mut us: Seq<Tables> = Seq::empty();
        let mut i: usize = 0;
        while i < moves.len()
            invariant
                old(self).tables() == tt0,
                old(self).rep_history@.take(ply as int) == path0,
                reps0 == old(self).rep_history@,
                hash == zobrist_spec(p0),
                tt_idx == hash % 0x100000,
                !repeated(path0, ply as int, hash),
                table_answer(slot_entry(tt0.0, p0), hash, depth, alpha, beta) is None,
                a0 == table_alpha(slot_entry(tt0.0, p0), hash, depth, alpha),
                !no_legal_move(p0),
                depth != 0,
                move_order(tt0.1, tt0.2, p0, ply as int, slot_entry(tt0.0, p0), hash, moves@),
                i <= moves.len(),
                a >= a0,
                a < beta || a == a0,
                tt0 == old(self).tables(),
                rs.len() == i,
                ts.len() == i + 1,
                ts.last() == self.tables(),
                a as int == run_alpha(a0 as int, rs),
                forall|j: int| 0 <= j < i ==> -#[trigger] rs[j] < beta,
                trail_ok(tt0, path0, p0, depth, ply as int, beta as int, a0 as int, moves@.take(i as int), rs, ts, zs, us),
                path1 == path0.push(zobrist_spec(p0)),
                forall|j: int| 0 <= j < ply ==> #[trigger] self.rep_history[j] == reps0[j],
                self.rep_history[ply as int] == hash,
                moves@.no_duplicates(),
                forall|m: Move| #[trigger] legal(p0, m) ==> moves@.contains(m),
                1 <= depth,
                ply + depth < MAX_DEPTH,
                p0 == *old(pos),
                n0 == node_of(p0),
                tt_idx < TT_SIZE,
                p0.halfmove_clock + depth + QUIESCENCE_PLY_CAP < u32::MAX,
                forall|m: Move| #[trigger] moves@.contains(m) ==> legal(p0, m),
                -WINDOW_BOUND - ply <= a <= WINDOW_BOUND + ply,
                -WINDOW_BOUND - ply <= beta <= WINDOW_BOUND + ply,
                self.wf(),
                self.depth == old(self).depth,
                self.max_time == old(self).max_time,
                node_of(*pos) == n0,
                sound(*pos),
                pos.halfmove_clock == p0.halfmove_clock,
                pos.zobrist_keys == p0.zobrist_keys,
                pos.fullmove_count == p0.fullmove_count,
            decreases moves.len() - i,
        {
            let mv = moves[i];
            let ghost q0 = *pos;
            proof {
                assert(moves@.contains(mv));
                assert(legal(q0, mv));
                lemma_pseudo_fits(q0, mv);
            }
            let undo = pos.make_move(mv);
            let ghost q = *pos;
            proof {
                lemma_legal_keeps_sound(q0, mv, q, undo);
            }
            let ghost tt_before = self.tables();
            let ghost mut zg: int = 0;
            let ghost mut ug: Tables = tt_before;
            proof {
                assert(self.rep_history@.take(ply as int + 1) =~= path1);
                assert(made(p0, mv, q, undo));
            }
            let raw = if i == 0 {
                let full = self.negamax(pos, depth - 1, ply + 1, -beta, -a, deadline);
                proof {
                    if full != TIMEOUT {
                        assert(child_ok(tt_before, path1, p0, mv, depth, ply as int, -beta, -(a as int), full as int, self.tables()));
                    }
                }
                full
            } else {
                let zw = self.negamax(pos, depth - 1, ply + 1, -a - 1, -a, deadline);
                proof {
                    zg = zw as int;
                    ug = self.tables();
                    if zw != TIMEOUT {
                        assert(child_ok(tt_before, path1, p0, mv, depth, ply as int, -(a as int) - 1, -(a as int), zg, ug));
                    }
                    assert(self.rep_history@.take(ply as int + 1) =~= path1);
                    assert(made(p0, mv, *pos, undo));
                }
                if zw == TIMEOUT {
                    let ghost q1 = *pos;
                    pos.undo_move(mv, undo);
                    proof {
                        lemma_back(q0, mv, q, q1, undo, *pos);
                    }
                    return TIMEOUT;
                }
                if -zw > a && -zw < beta {
                    let full = self.negamax(pos, depth - 1, ply + 1, -beta, -a, deadline);
                    proof {
                        if full != TIMEOUT {
                            assert(child_ok(ug, path1, p0, mv, depth, ply as int, -beta, -(a as int), full as int, self.tables()));
                        }
                    }
                    full
                } else {
                    zw
                }
            };
            let ghost q1 = *pos;
            pos.undo_move(mv, undo);
            proof {
                lemma_back(q0, mv, q, q1, undo, *pos);
            }
            if raw == TIMEOUT {
                return TIMEOUT;
            }
            proof {
                let ms1 = moves@.take(i as int + 1);
                assert(ms1.drop_last() =~= moves@.take(i as int));
                assert(ms1.last() == mv);
                assert(!moves@.take(i as int).contains(mv)) by {
                    if moves@.take(i as int).contains(mv) {
                        let k = choose|k: int| 0 <= k < i && moves@.take(i as int)[k] == mv;
                        assert(moves@[k] == moves@[i as int]);
                    }
                }
                let rs0 = rs;
                let ts0 = ts;
                let zs0 = zs;
                let us0 = us;
                rs = rs.push(raw as int);
                ts = ts.push(self.tables());
                zs = zs.push(zg);
                us = us.push(ug);
                assert(rs.drop_last() =~= rs0);
                assert(ts.drop_last() =~= ts0);
                assert(zs.drop_last() =~= zs0);
                assert(us.drop_last() =~= us0);
                assert(i > 0 ==> -rs[i - 1] < beta);
                assert(trail_ok(tt0, path0, p0, depth, ply as int, beta as int, a0 as int, ms1, rs, ts, zs, us));
            }
            let score = -raw;
            if score >= beta {
                self.record_cutoff(pos, mv, ply, depth);
                self.store(tt_idx, hash, depth, beta, TTFlag::LowerBound, Some(mv));
                proof {
                    let ms = moves@.take(i as int + 1);
                    assert(pos.view() == p0.view());
                    assert(closes(ts.last(), p0, depth, ply as int, beta as int, a0 as int, moves@, ms, rs, zs, us, beta as int, self.tables()));
                }
                return beta;
            }
            if score > a {
                a = score;
                best_move_found = Some(mv);
            }
            i = i + 1;
        }
        let flag = if a > alpha_at_entry {
            TTFlag::Exact
        } else {
            TTFlag::UpperBound
        };
        self.store(tt_idx, hash, depth, a, flag, best_move_found);
        proof {
            let ms = moves@.take(moves.len() as int);
            assert(ms =~= moves@);
            assert(closes(ts.last(), p0, depth, ply as int, beta as int, a0 as int, moves@, ms, rs, zs, us, a as int, self.tables()));
        }
        a
    }
}

/// The ordering score of a move at the root on cleared tables (no
/// killers, no history): `score_spec` with those tables.
pub open spec fn opening_score(v: BoardView, side: Color, mv: Move) -> int {
    if mv.flag == MoveFlag::Capture || mv.flag == MoveFlag::PromotionCapture {
        let d = cell_value(v.mailbox[mv.to as int]) - cell_value(v.mailbox[mv.from as int]);
        if d >= 0 {
            10_000 + d + promo_value(mv.promotion)
        } else {
            d + promo_value(mv.promotion)
        }
    } else if mv.flag == MoveFlag::EnPassant {
        10_000
    } else if mv.flag == MoveFlag::Promotion {
        9_500 + promo_value(mv.promotion)
    } else {
        -(if pawn_guards(v, side.other().index(), mv.to as int) {
            piece_value(cell_kind(v.mailbox[mv.from as int]))
        } else {
            0
        })
    }
}

/// Whether `m` is a legal move of `p` that comes first in the ordering on
/// cleared tables: no legal move scores higher.
pub open spec fn ordered_first(p: Position, m: Move) -> bool {
    &&& legal(p, m)
    &&& forall|x: Move| #[trigger] legal(p, x) ==> opening_score(p.view(), p.side_to_move, m) >= opening_score(p.view(), p.side_to_move, x)
}

/// One root search of `p` to depth `d` in the window (`alpha`, `beta`):
/// the moves `ms` in turn from the table `tt`, each searched to `d - 1` in
/// the window that `beta` and the best so far make (with the line `line`
/// before the root), with the results `rs` and the tables `ts` between
/// them, none reaching `beta`.
pub open spec fn root_trail(
    tt: Tables,
    line: Seq<u64>,
    p: Position,
    d: u32,
    alpha: int,
    beta: int,
    ms: Seq<Move>,
    rs: Seq<int>,
    ts: Seq<Tables>,
) -> bool
    decreases ms.len(),
{
    if ms.len() == 0 {
        rs.len() == 0 && ts.len() == 1 && ts[0] == tt
    } else {
        let k = ms.len() - 1;
        &&& rs.len() == ms.len()
        &&& ts.len() == ms.len() + 1
        &&& root_trail(tt, line, p, d, alpha, beta, ms.drop_last(), rs.drop_last(), ts.drop_last())
        &&& legal(p, ms.last())
        &&& !ms.drop_last().contains(ms.last())
        &&& -rs.last() < beta
        &&& child_ok(ts[k], line, p, ms.last(), d, 0, -beta, -run_alpha(alpha, rs.drop_last()), rs.last(), ts.last())
    }
}

/// The move a root search picks from its results: the first whose score
/// rose above the best before it (from `alpha`).
pub open spec fn root_pick(alpha: int, ms: Seq<Move>, rs: Seq<int>) -> Option<Move>
    decreases ms.len(),
{
    if ms.len() == 0 || rs.len() == 0 {
        None
    } else {
        let b = root_pick(alpha, ms.drop_last(), rs.drop_last());
        if -rs.last() > run_alpha(alpha, rs.drop_last()) {
            Some(ms.last())
        } else {
            b
        }
    }
}

/// A root search of `p` to depth `d` that tried every legal move, ended
/// strictly inside its window (`alpha`, `beta`), and picked `m`.
pub open spec fn iteration_picks(
    tt: Tables,
    line: Seq<u64>,
    p: Position,
    d: u32,
    alpha: int,
    beta: int,
    ms: Seq<Move>,
    rs: Seq<int>,
    ts: Seq<Tables>,
    m: Move,
) -> bool {
    &&& d >= 1
    &&& root_trail(tt, line, p, d, alpha, beta, ms, rs, ts)
    &&& forall|x: Move| #[trigger] legal(p, x) ==> ms.contains(x)
    &&& alpha < run_alpha(alpha, rs) < beta
    &&& root_pick(alpha, ms, rs) == Some(m)
}

impl Bot {
    /// The move to play: the history and killers cleared, the root moves
    /// ordered, then depth 1, 2, ... up to the bot's depth until the
    /// deadline (its time limit, half a second if none, from now), the best
    /// move so far tried first and the killers cleared at each depth. From
    /// depth 3 each search starts in a window of 50 around the previous
    /// score, widened (doubling the step) on the side it fails, up to the
    /// mate bounds. Plays the best move of the deepest completed search,
    /// else the first move in order; `None` without a legal move.
    /// Deepening stops once the deadline passes; below the plies the tables
    /// cover; after 20 failed windows at one depth (where the window's step
    /// would overflow); and where the fifty-move clock could run past its
    /// range.
    #[verifier::spinoff_prover]
    pub fn best_move(&mut self, gs: &mut GameState) -> (r: Option<Move>)
        requires
            old(self).wf(),
            sound(old(gs).position),
            old(gs).position.halfmove_clock < u32::MAX,
        ensures
            final(self).wf(),
            final(self).depth == old(self).depth,
            final(self).max_time == old(self).max_time,
            r is None <==> no_legal_move(old(gs).position),
            r matches Some(m) ==> legal(old(gs).position, m),
            r matches Some(m) ==> ordered_first(old(gs).position, m) || exists|
                tt1: Tables,
                d: u32,
                al: int,
                be: int,
                ms: Seq<Move>,
                rs: Seq<int>,
                ts: Seq<Tables>,
            |
                d <= old(self).depth && #[trigger] iteration_picks(
                    tt1,
                    old(self).rep_history@.take(1),
                    old(gs).position,
                    d,
                    al,
                    be,
                    ms,
                    rs,
                    ts,
                    m,
                ),
            node_of(final(gs).position) == node_of(old(gs).position),
            final(gs).position.halfmove_clock == old(gs).position.halfmove_clock,
            final(gs).position.zobrist_keys == old(gs).position.zobrist_keys,
            final(gs).position.fullmove_count == old(gs).position.fullmove_count,
            final(gs).history == old(gs).history,
            final(gs).repetition_table == old(gs).repetition_table,
            final(gs).result == old(gs).result,
            final(gs).line == old(gs).line,
    {
        self.history = zero_history();
        let no_killers: [Option<Move>; 2] = [None, None];
        self.killers = [no_killers; 64];
        let ghost line = old(self).rep_history@.take(1);
        let ghost p0 = gs.position;
        let ghost n0 = node_of(p0);
        let legal_moves = gs.position.get_legal_moves();
        if legal_moves.len() == 0 {
            proof {
                assert forall|m: Move| !#[trigger] legal(p0, m) by {
                    assert(!legal_moves@.contains(m));
                }
            }
            return None;
        }
        proof {
            assert forall|i: int| 0 <= i < legal_moves@.len() implies (#[trigger] legal_moves@[i]).from < 64 && legal_moves@[i].to < 64 by {
                assert(legal_moves@.contains(legal_moves@[i]));
                lemma_pseudo_fits(p0, legal_moves@[i]);
            }
        }
        let mut moves = self.order_moves(&gs.position, legal_moves, 0);
        let ghost first = moves@[0];
        proof {
            lemma_same_moves(moves@, legal_moves@);
            assert(moves@.contains(moves@[0]));
            assert(self.killers[0] == no_killers);
            assert forall|x: Move| #[trigger] legal(p0, x) implies opening_score(p0.view(), p0.side_to_move, first) >= opening_score(p0.view(), p0.side_to_move, x) by {
                assert(legal_moves@.contains(x));
                assert(moves@.contains(x));
                let b = choose|b: int| 0 <= b < moves@.len() && moves@[b] == x;
                assert forall|y: Move| #[trigger] moves@.contains(y) implies self.score_spec(p0.view(), p0.side_to_move, y, 0) == opening_score(p0.view(), p0.side_to_move, y) by {
                    lemma_pseudo_fits(p0, y);
                    assert(cell_ok(p0.view().mailbox[y.from as int]));
                }
                assert(moves@.contains(first));
                if b > 0 {
                    assert(self.score_spec(p0.view(), p0.side_to_move, moves@[0], 0) >= self.score_spec(p0.view(), p0.side_to_move, moves@[b], 0));
                }
            }
            assert(ordered_first(p0, first));
        }
        let budget = match self.max_time {
            Some(d) => d,
            None => millis(500),
        };
        let deadline = deadline_in(budget);
        let mut best_move = Some(moves[0]);
        let mut prev_score: i32 = 0;
        let mut depth: u32 = 1;
        while depth <= self.depth
            invariant_except_break
                -CHECKMATE_SCORE - 1 - 50 * depth <= prev_score <= CHECKMATE_SCORE + 1 + 50 * depth,
            invariant
                forall|m: Move| #[trigger] moves@.contains(m) <==> legal(p0, m),
                n0 == node_of(p0),
                moves@.len() > 0,
                best_move matches Some(m) && legal(p0, m),
                best_move matches Some(m) && (ordered_first(p0, m) || exists|
                    tt1: Tables,
                    d: u32,
                    al: int,
                    be: int,
                    ms: Seq<Move>,
                    rs: Seq<int>,
                    ts: Seq<Tables>,
                |
                    d <= old(self).depth && #[trigger] iteration_picks(tt1, line, p0, d, al, be, ms, rs, ts, m)),
                line == old(self).rep_history@.take(1),
                self.rep_history[0] == old(self).rep_history[0],
                p0 == old(gs).position,
                moves@.no_duplicates(),
                1 <= depth,
                depth <= MAX_DEPTH,
                self.wf(),
                self.depth == old(self).depth,
                self.max_time == old(self).max_time,
                node_of(gs.position) == n0,
                sound(gs.position),
                gs.position.halfmove_clock == p0.halfmove_clock,
                gs.position.zobrist_keys == p0.zobrist_keys,
                gs.position.fullmove_count == p0.fullmove_count,
                gs.history == old(gs).history,
                gs.repetition_table == old(gs).repetition_table,
                gs.result == old(gs).result,
                gs.line == old(gs).line,
            decreases self.depth - depth,
        {
            if time_is_up(&deadline) {
                break;
            }
            if depth as usize >= MAX_DEPTH || gs.position.halfmove_clock as u64 + depth as u64 + 256 >= 0xffff_ffff {
                break;
            }
            if let Some(bm) = best_move {
                if let Some(idx) = index_of(&moves, &bm) {
                    let ghost before = moves@;
                    swap_moves(&mut moves, 0, idx);
                    proof {
                        lemma_same_moves(moves@, before);
                    }
                }
            }
            self.killers = [[None; 2]; 64];
            let mut alpha: i32 = if depth < 3 {
                -CHECKMATE_SCORE - 1
            } else {
                prev_score - 50
            };
            let mut beta: i32 = if depth < 3 {
                CHECKMATE_SCORE + 1
            } else {
                prev_score + 50
            };
            let mut delta: i32 = 50;
            let mut tries: u32 = 0;
            let mut timed_out = false;
            let mut outcome: Option<(Option<Move>, i32)> = None;
            let ghost mut w_tt: Tables = self.tables();
            let ghost mut w_al: int = 0;
            let ghost mut w_be: int = 0;
            let ghost mut w_ms: Seq<Move> = moves@;
            let ghost mut w_rs: Seq<int> = Seq::empty();
            let ghost mut w_ts: Seq<Tables> = Seq::empty();
            while tries < MAX_ASPIRATION_TRIES
                invariant_except_break
                    !timed_out,
                    outcome is None,
                invariant
                    forall|m: Move| #[trigger] moves@.contains(m) <==> legal(p0, m),
                    n0 == node_of(p0),
                    moves@.len() > 0,
                    1 <= depth < MAX_DEPTH,
                    p0.halfmove_clock + depth + 256 < u32::MAX,
                    -CHECKMATE_SCORE - 1 - 50 * (depth + 1) <= alpha <= beta,
                    beta <= CHECKMATE_SCORE + 1 + 50 * (depth + 1),
                    tries <= MAX_ASPIRATION_TRIES,
                    delta == 50 * pow2_u32(tries),
                    outcome matches Some((bm, sc)) ==> (bm matches Some(m) ==> legal(p0, m)) && alpha < sc < beta,
                    outcome matches Some((bm, sc)) ==> (bm matches Some(m) ==> iteration_picks(w_tt, line, p0, depth, w_al, w_be, w_ms, w_rs, w_ts, m)),
                    line == old(self).rep_history@.take(1),
                    self.rep_history[0] == old(self).rep_history[0],
                    moves@.no_duplicates(),
                    self.wf(),
                    self.depth == old(self).depth,
                    self.max_time == old(self).max_time,
                    node_of(gs.position) == n0,
                    sound(gs.position),
                    gs.position.halfmove_clock == p0.halfmove_clock,
                    gs.position.zobrist_keys == p0.zobrist_keys,
                    gs.position.fullmove_count == p0.fullmove_count,
                    gs.history == old(gs).history,
                    gs.repetition_table == old(gs).repetition_table,
                    gs.result == old(gs).result,
                    gs.line == old(gs).line,
                decreases MAX_ASPIRATION_TRIES - tries,
            {
                proof {
                    lemma_pow2_bound((tries + 1) as u32);
                    assert(pow2_u32((tries + 1) as u32) == 2 * pow2_u32(tries));
                }
                let mut best_this: Option<Move> = None;
                let mut score_this: i32 = alpha;
                let ghost tt_try = self.tables();
                let ghost mut rs: Seq<int> = Seq::empty();
                let ghost mut ts: Seq<Tables> = seq![tt_try];
                let mut failed_high = false;
                let mut i: usize = 0;
                while i < moves.len()
                    invariant_except_break
                        !timed_out,
                        !failed_high,
                        rs.len() == i,
                        ts.len() == i + 1,
                        ts.last() == self.tables(),
                        score_this as int == run_alpha(alpha as int, rs),
                        best_this == root_pick(alpha as int, moves@.take(i as int), rs),
                        root_trail(tt_try, line, p0, depth, alpha as int, beta as int, moves@.take(i as int), rs, ts),
                    invariant
                        i <= moves.len(),
                        line == old(self).rep_history@.take(1),
                        self.rep_history[0] == old(self).rep_history[0],
                        moves@.no_duplicates(),
                        forall|m: Move| #[trigger] moves@.contains(m) <==> legal(p0, m),
                        n0 == node_of(p0),
                        moves@.len() > 0,
                        1 <= depth < MAX_DEPTH,
                        p0.halfmove_clock + depth + 256 < u32::MAX,
                        alpha <= score_this,
                        score_this < beta || score_this == alpha,
                        -CHECKMATE_SCORE - 1 - 50 * (depth + 1) <= alpha,
                        beta <= CHECKMATE_SCORE + 1 + 50 * (depth + 1),
                        alpha <= beta,
                        best_this matches Some(m) ==> legal(p0, m) && alpha < score_this,
                        best_this is None ==> score_this == alpha,
                        self.wf(),
                        self.depth == old(self).depth,
                        self.max_time == old(self).max_time,
                        node_of(gs.position) == n0,
                        sound(gs.position),
                        gs.position.halfmove_clock == p0.halfmove_clock,
                        gs.position.zobrist_keys == p0.zobrist_keys,
                        gs.position.fullmove_count == p0.fullmove_count,
                        gs.history == old(gs).history,
                        gs.repetition_table == old(gs).repetition_table,
                        gs.result == old(gs).result,
                        gs.line == old(gs).line,
                    ensures
                        !timed_out && !failed_high ==> {
                            &&& i == moves.len()
                            &&& rs.len() == i
                            &&& ts.len() == i + 1
                            &&& ts.last() == self.tables()
                            &&& score_this as int == run_alpha(alpha as int, rs)
                            &&& best_this == root_pick(alpha as int, moves@.take(i as int), rs)
                            &&& root_trail(tt_try, line, p0, depth, alpha as int, beta as int, moves@.take(i as int), rs, ts)
                        },
                    decreases moves.len() - i,
                {
                    let mv = moves[i];
                    let ghost q0 = gs.position;
                    proof {
                        assert(moves@.contains(mv));
                        assert(legal(q0, mv));
                        lemma_pseudo_fits(q0, mv);
                    }
                    let undo = gs.position.make_move(mv);
                    let ghost q = gs.position;
                    proof {
                        lemma_legal_keeps_sound(q0, mv, q, undo);
                    }
                    let ghost tt_before = self.tables();
                    proof {
                        assert(self.rep_history@.take(1) =~= line);
                        assert(made(p0, mv, q, undo));
                    }
                    let raw = self.negamax(&mut gs.position, depth - 1, 1, -beta, -score_this, deadline);
                    proof {
                        if raw != TIMEOUT {
                            assert(child_ok(tt_before, line, p0, mv, depth, 0, -beta, -(score_this as int), raw as int, self.tables()));
                        }
                    }
                    let ghost q1 = gs.position;
                    gs.position.undo_move(mv, undo);
                    proof {
                        lemma_back(q0, mv, q, q1, undo, gs.position);
                    }
                    if raw == TIMEOUT {
                        timed_out = true;
                        break;
                    }
                    let score = -raw;
                    if score >= beta {
                        if let Some(idx) = index_of(&moves, &mv) {
                            let ghost before = moves@;
                            swap_moves(&mut moves, 0, idx);
                            proof {
                                lemma_same_moves(moves@, before);
                            }
                        }
                        failed_high = true;
                        break;
                    }
                    proof {
                        let ms1 = moves@.take(i as int + 1);
                        assert(ms1.drop_last() =~= moves@.take(i as int));
                        assert(ms1.last() == mv);
                        assert(!moves@.take(i as int).contains(mv)) by {
                            if moves@.take(i as int).contains(mv) {
                                let k = choose|k: int| 0 <= k < i && moves@.take(i as int)[k] == mv;
                                assert(moves@[k] == moves@[i as int]);
                            }
                        }
                        let rs0 = rs;
                        let ts0 = ts;
                        rs = rs.push(raw as int);
                        ts = ts.push(self.tables());
                        assert(rs.drop_last() =~= rs0);
                        assert(ts.drop_last() =~= ts0);
                        assert(root_trail(tt_try, line, p0, depth, alpha as int, beta as int, ms1, rs, ts));
                    }
                    if score > score_this {
                        score_this = score;
                        best_this = Some(mv);
                    }
                    i = i + 1;
                }
                if timed_out {
                    break;
                }
                if failed_high {
                    beta = if beta + delta < CHECKMATE_SCORE + 1 {
                        beta + delta
                    } else {
                        CHECKMATE_SCORE + 1
                    };
                    if beta < alpha {
                        beta = alpha;
                    }
                    delta = delta * 2;
                    tries = tries + 1;
                    continue;
                }
                if score_this <= alpha {
                    alpha = if alpha - delta > -CHECKMATE_SCORE - 1 {
                        alpha - delta
                    } else {
                        -CHECKMATE_SCORE - 1
                    };
                    if alpha > beta {
                        alpha = beta;
                    }
                    delta = delta * 2;
                    tries = tries + 1;
                    continue;
                }
                proof {
                    w_tt = tt_try;
                    w_al = alpha as int;
                    w_be = beta as int;
                    w_ms = moves@.take(moves.len() as int);
                    w_rs = rs;
                    w_ts = ts;
                    assert(moves@.take(moves.len() as int) =~= moves@);
                    assert forall|x: Move| #[trigger] legal(p0, x) implies w_ms.contains(x) by {
                        assert(moves@.contains(x));
                    }
                    if best_this is Some {
                        assert(iteration_picks(w_tt, line, p0, depth, w_al, w_be, w_ms, w_rs, w_ts, best_this.unwrap()));
                    }
                }
                outcome = Some((best_this, score_this));
                break;
            }
            if timed_out {
                break;
            }
            match outcome {
                Some((completed_move, completed_score)) => {
                    if let Some(mv) = completed_move {
                        proof {
                            assert(iteration_picks(w_tt, line, p0, depth, w_al, w_be, w_ms, w_rs, w_ts, mv));
                        }
                        best_move = Some(mv);
                        prev_score = completed_score;
                    }
                },
                None => {
                    break;
                },
            }
            if depth == self.depth {
                break;
            }
            depth = depth + 1;
        }
        best_move
    }
}

} // verus!

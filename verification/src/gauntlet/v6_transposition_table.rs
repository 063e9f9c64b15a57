//! Move-ordered iterative deepening on material with a transposition table
//! and repetition detection: mate scores are stored relative to the
//! position, a repetition along the line scores a draw, and the table's best
//! move is tried first.
use vstd::prelude::*;
use core::time::Duration;
use web_time::Instant;
use crate::bitboards::{BoardView, cell_ok};
use crate::types::{MoveFlag, Move, lemma_color_index};
use crate::position::{Position, Undo, made, zobrist_spec};
use crate::movegen::{node_of, legal, sound, lemma_pseudo_fits, lemma_legal_keeps_sound, lemma_back};
use crate::eval::{evaluate_material, piece_value_of};
use crate::game::{GameState, no_legal_move};
use crate::search::{
    CHECKMATE_SCORE, TIMEOUT, TTEntry, TTFlag, TT_SIZE, SCORE_BOUND, WINDOW_BOUND, tt_index, bounded, clamp_score, time_is_up, deadline_in,
    millis, empty_table, sort_by_keys, same_moves, lemma_same_moves, lemma_keys_follow, raised, killers_after, index_of, swap_moves, repeated,
};
use crate::gauntlet::negamax::{material_eval, in_check_at};
use crate::bot::{slot_entry, zero_history};
use crate::gauntlet::v5_move_ordering::{cell_value, cell_kind, promo_value, value_on, kind_on, holds};

verus! {

broadcast use lemma_color_index;

/// The plies the killer and repetition tables cover.
pub const MAX_DEPTH: usize = 64;

/// A mate score found `ply` plies from the root, made relative to the
/// position for storing: scores within 64 of a mate move away from zero by
/// the ply.
pub open spec fn to_tt_spec(score: int, ply: int) -> int {
    if score > CHECKMATE_SCORE - 64 {
        score + ply
    } else if score < -CHECKMATE_SCORE + 64 {
        score - ply
    } else {
        score
    }
}

/// A stored score read back `ply` plies from the root: scores within 64 of
/// a mate move towards zero by the ply.
pub open spec fn from_tt_spec(score: int, ply: int) -> int {
    if score > CHECKMATE_SCORE - 64 {
        score - ply
    } else if score < -CHECKMATE_SCORE + 64 {
        score + ply
    } else {
        score
    }
}

/// The score to store for `score` found `ply` plies from the root.
pub fn score_to_tt(score: i32, ply: usize) -> (r: i32)
    requires
        -WINDOW_BOUND - MAX_DEPTH <= score <= WINDOW_BOUND + MAX_DEPTH,
        ply < MAX_DEPTH,
    ensures
        r == to_tt_spec(score as int, ply as int),
{
    let p = ply as i32;
    if score > CHECKMATE_SCORE - 64 {
        score + p
    } else if score < -CHECKMATE_SCORE + 64 {
        score - p
    } else {
        score
    }
}

/// The score a stored `score` stands for `ply` plies from the root.
pub fn score_from_tt(score: i32, ply: usize) -> (r: i32)
    requires
        -SCORE_BOUND <= score <= SCORE_BOUND,
        ply < MAX_DEPTH,
    ensures
        r == from_tt_spec(score as int, ply as int),
{
    let p = ply as i32;
    if score > CHECKMATE_SCORE - 64 {
        score - p
    } else if score < -CHECKMATE_SCORE + 64 {
        score + p
    } else {
        score
    }
}

/// The player: limits, the ordering tables, the line searched, and the
/// transposition table.
pub struct Bot {
    pub depth: u32,
    pub max_time: Option<Duration>,
    pub killers: [[Option<Move>; 2]; 64],
    pub history: [[i32; 64]; 6],
    pub rep_history: [u64; 64],
    pub tt: Vec<TTEntry>,
}

/// The best of `a` and the children's results `rs` negated, in turn: the
/// `alpha` of a search after those children.
pub open spec fn run_alpha(a: int, rs: Seq<int>) -> int
    decreases rs.len(),
{
    if rs.len() == 0 {
        a
    } else {
        let b = run_alpha(a, rs.drop_last());
        if -rs.last() > b {
            -rs.last()
        } else {
            b
        }
    }
}

/// The tables a search reads and writes: the transposition table, the
/// killer moves and the history scores.
pub type Tables = (Seq<TTEntry>, [[Option<Move>; 2]; 64], [[i32; 64]; 6]);

/// The ordering score of `mv` at `ply` with the killer table `killers` and
/// the history table `history`, as `score_spec` says.
pub open spec fn order_score(killers: [[Option<Move>; 2]; 64], history: [[i32; 64]; 6], v: BoardView, mv: Move, ply: int) -> int {
    if mv.flag == MoveFlag::Capture || mv.flag == MoveFlag::PromotionCapture {
        let d = cell_value(v.mailbox[mv.to as int]) - cell_value(v.mailbox[mv.from as int]);
        if d >= 0 {
            10_000 + d + promo_value(mv.promotion)
        } else {
            d + promo_value(mv.promotion)
        }
    } else if mv.flag == MoveFlag::EnPassant {
        10_000
    } else if mv.flag == MoveFlag::Promotion {
        9_500 + promo_value(mv.promotion)
    } else if killers[ply][0] == Some(mv) {
        9_000
    } else if killers[ply][1] == Some(mv) {
        8_000
    } else {
        let h = history[cell_kind(v.mailbox[mv.from as int])][mv.to as int] as int;
        if h < 7_000 {
            h
        } else {
            7_000
        }
    }
}

/// The killers `k2` and history `h2` are `k1` and `h1` after a cutoff by
/// `mv` at `ply` with `depth` left on the board `v`: for a quiet move, it
/// becomes the first killer of the ply and its piece and target earn
/// `depth` squared of history; nothing else changes.
pub open spec fn recorded(
    k1: [[Option<Move>; 2]; 64],
    h1: [[i32; 64]; 6],
    v: BoardView,
    mv: Move,
    ply: int,
    depth: u32,
    k2: [[Option<Move>; 2]; 64],
    h2: [[i32; 64]; 6],
) -> bool {
    let quiet = mv.flag.is_quiet_flag();
    let piece = cell_kind(v.mailbox[mv.from as int]);
    &&& quiet ==> (k2[ply][0], k2[ply][1]) == killers_after(k1[ply], mv)
    &&& quiet ==> h2[piece][mv.to as int] == raised(h1[piece][mv.to as int], depth * depth)
    &&& forall|q: int| 0 <= q < 64 && (q != ply || !quiet) ==> #[trigger] k2[q] == k1[q]
    &&& forall|k: int, t: int|
        0 <= k < 6 && 0 <= t < 64 && !(quiet && k == piece && t == mv.to) ==> #[trigger] h2[k][t] == h1[k][t]
}

/// `s` lists the legal moves of `p` once each, by descending ordering
/// score with the killers `k` and history `h` at `ply`.
pub open spec fn sorted_moves(k: [[Option<Move>; 2]; 64], h: [[i32; 64]; 6], p: Position, ply: int, s: Seq<Move>) -> bool {
    &&& s.no_duplicates()
    &&& forall|m: Move| #[trigger] s.contains(m) <==> legal(p, m)
    &&& forall|a: int, b: int|
        0 <= a < b < s.len() ==> order_score(k, h, p.view(), s[a], ply) >= order_score(k, h, p.view(), s[b], ply)
}

/// `f` is the order in which a search of `p` at `ply` tries its moves: the
/// legal moves by descending ordering score (with the killers `k` and
/// history `h`), the table's move for `p` (from entry `e` about hash `hs`)
/// swapped to the front when there is one among them.
pub open spec fn move_order(
    k: [[Option<Move>; 2]; 64],
    h: [[i32; 64]; 6],
    p: Position,
    ply: int,
    e: TTEntry,
    hs: u64,
    f: Seq<Move>,
) -> bool {
    exists|s: Seq<Move>, i: int|
        #![trigger sorted_moves(k, h, p, ply, s), s[i]]
        sorted_moves(k, h, p, ply, s) && (if e.hash == hs && e.best_move is Some && s.contains(e.best_move.unwrap()) {
            0 <= i < s.len() && s[i] == e.best_move.unwrap() && f == s.update(0, s[i]).update(i, s[0])
        } else {
            f == s
        })
}

/// Move `m` of `p`, searched with the table `tt` and the line `path` to
/// `depth - 1` plies in the window (`alpha`, `beta`), gave `r` and left the
/// table `tt2`.
pub open spec fn child_ok(
    tt: Tables,
    path: Seq<u64>,
    p: Position,
    m: Move,
    depth: u32,
    ply: int,
    alpha: int,
    beta: int,
    r: int,
    tt2: Tables,
) -> bool
    decreases depth, 0int, 0int,
{
    if depth == 0 {
        false
    } else {
        exists|q: Position, u: Undo| #![trigger made(p, m, q, u)] made(p, m, q, u) && searched(tt, path, q, (depth - 1) as u32, ply + 1, alpha, beta, r, tt2)
    }
}

/// The moves `ms` of `p` were searched in turn from the table `tt`, with
/// the results `rs` and the tables `ts` between them, each once and in the
/// window that the results before it left; none but the last reached
/// `beta`.
pub open spec fn trail_ok(
    tt: Tables,
    path: Seq<u64>,
    p: Position,
    depth: u32,
    ply: int,
    beta: int,
    a: int,
    ms: Seq<Move>,
    rs: Seq<int>,
    ts: Seq<Tables>,
) -> bool
    decreases depth, 1int, ms.len(),
{
    if ms.len() == 0 {
        rs.len() == 0 && ts.len() == 1 && ts[0] == tt
    } else {
        let k = ms.len() - 1;
        &&& rs.len() == ms.len()
        &&& ts.len() == ms.len() + 1
        &&& trail_ok(tt, path, p, depth, ply, beta, a, ms.drop_last(), rs.drop_last(), ts.drop_last())
        &&& legal(p, ms.last())
        &&& !ms.drop_last().contains(ms.last())
        &&& (k > 0 ==> -rs[k - 1] < beta)
        &&& child_ok(
            ts[k],
            path.push(zobrist_spec(p)),
            p,
            ms.last(),
            depth,
            ply,
            -beta,
            -run_alpha(a, rs.drop_last()),
            rs.last(),
            ts.last(),
        )
    }
}

/// How a search of `p` that tried the moves `ms` ends, from the table
/// `tt`: a cutoff by the last gives `beta` and stores it as a lower bound
/// with that move; else every legal move was tried, the running `alpha`
/// is the result, stored as exact when it rose above `a` and as an upper
/// bound when not.
pub open spec fn closes(
    tt: Tables,
    p: Position,
    depth: u32,
    ply: int,
    beta: int,
    a: int,
    f: Seq<Move>,
    ms: Seq<Move>,
    rs: Seq<int>,
    r: int,
    tt2: Tables,
) -> bool {
    let h = zobrist_spec(p);
    let slot = (h % 0x100000) as int;
    &&& ms == f.take(ms.len() as int)
    &&& if -rs.last() >= beta {
        &&& r == beta
        &&& recorded(tt.1, tt.2, p.view(), ms.last(), ply, depth, tt2.1, tt2.2)
        &&& tt2.0 == tt.0.update(
            slot,
            TTEntry {
                hash: h,
                depth,
                score: clamp_score(to_tt_spec(beta, ply) as i32),
                flag: TTFlag::LowerBound,
                best_move: Some(ms.last()),
            },
        )
    } else {
        &&& forall|m: Move| #[trigger] legal(p, m) ==> ms.contains(m)
        &&& r == run_alpha(a, rs)
        &&& tt2.1 == tt.1
        &&& tt2.2 == tt.2
        &&& tt2.0 == tt.0.update(slot, tt2.0[slot])
        &&& tt2.0[slot].hash == h
        &&& tt2.0[slot].depth == depth
        &&& tt2.0[slot].score == clamp_score(to_tt_spec(r, ply) as i32)
        &&& tt2.0[slot].flag == (if r > a { TTFlag::Exact } else { TTFlag::UpperBound })
    }
}

/// What the search of `p` to `depth` at `ply` in the window (`alpha`,
/// `beta`), with the table `tt` and the hashes `path` of the line before
/// it, gives (`r`) and leaves in the table (`tt2`), the order in which it
/// tries the moves aside: 0 for a position repeated an even number of
/// plies back; a usable entry's answer; the material balance at depth 0;
/// the mate or stalemate score without a legal move; else what the moves
/// searched in turn give.
pub open spec fn searched(
    tt: Tables,
    path: Seq<u64>,
    p: Position,
    depth: u32,
    ply: int,
    alpha: int,
    beta: int,
    r: int,
    tt2: Tables,
) -> bool
    decreases depth, 2int, 0int,
{
    let h = zobrist_spec(p);
    let e = slot_entry(tt.0, p);
    let n = node_of(p);
    let answer = Bot::adjusted_answer(e, h, depth, ply, alpha, beta);
    let a = Bot::adjusted_alpha(e, h, depth, ply, alpha);
    if repeated(path, ply, h) {
        r == 0 && tt2 == tt
    } else if answer is Some {
        r == answer.unwrap() && tt2 == tt
    } else if depth == 0 {
        r == material_eval(n) && tt2 == tt
    } else if no_legal_move(p) {
        r == (if in_check_at(n) { -CHECKMATE_SCORE } else { 0 }) && tt2 == tt
    } else {
        exists|f: Seq<Move>, ms: Seq<Move>, rs: Seq<int>, ts: Seq<Tables>|
            move_order(tt.1, tt.2, p, ply, e, h, f) && trail_ok(tt, path, p, depth, ply, beta, a, ms, rs, ts) && ms.len() > 0
                && #[trigger] closes(ts.last(), p, depth, ply, beta, a, f, ms, rs, r, tt2)
    }
}

impl Bot {
    /// The table has its size and its scores stay within the bound.
    pub open spec fn wf(&self) -> bool {
        &&& self.tt@.len() == TT_SIZE
        &&& forall|i: int| 0 <= i < self.tt@.len() ==> -SCORE_BOUND <= #[trigger] self.tt@[i].score <= SCORE_BOUND
    }

    /// The tables the search reads and writes.
    pub open spec fn tables(&self) -> Tables {
        (self.tt@, self.killers, self.history)
    }

    /// The tables as a new player has them: every table entry empty, no
    /// killers, no history, no line.
    pub open spec fn fresh(&self) -> bool {
        &&& forall|i: int|
            0 <= i < self.tt@.len() ==> #[trigger] self.tt@[i] == (TTEntry {
                hash: 0,
                depth: 0,
                score: 0,
                flag: TTFlag::Exact,
                best_move: None,
            })
        &&& forall|p: int, j: int| 0 <= p < 64 && 0 <= j < 2 ==> #[trigger] self.killers[p][j] is None
        &&& forall|k: int, s: int| 0 <= k < 6 && 0 <= s < 64 ==> #[trigger] self.history[k][s] == 0
        &&& forall|p: int| 0 <= p < 64 ==> #[trigger] self.rep_history[p] == 0
    }

    /// A player with the given limits and empty tables.
    fn with_limits(depth: u32, max_time: Duration) -> (r: Self)
        ensures
            r.wf(),
            r.fresh(),
            r.depth == depth,
            r.max_time == Some(max_time),
    {
        let tt = empty_table(TT_SIZE);
        let history = zero_history();
        let no_killers: [Option<Move>; 2] = [None, None];
        let killers = [no_killers; 64];
        let rep_history = [0u64; 64];
        proof {
            assert forall|p: int, j: int| 0 <= p < 64 && 0 <= j < 2 implies #[trigger] killers[p][j] is None by {
                assert(killers[p] == no_killers);
            }
        }
        Bot {
            depth,
            max_time: Some(max_time),
            killers,
            history,
            rep_history,
            tt,
        }
    }

    /// No depth limit, half a second per move.
    #[allow(clippy::new_without_default)]
    pub fn new() -> (r: Self)
        ensures
            r.wf(),
            r.fresh(),
            r.depth == u32::MAX,
            r.max_time is Some,
    {
        Self::with_limits(u32::MAX, millis(500))
    }

    /// At most `depth` plies, half a second per move.
    pub fn with_depth(depth: u32) -> (r: Self)
        ensures
            r.wf(),
            r.fresh(),
            r.depth == depth,
            r.max_time is Some,
    {
        Self::with_limits(depth, millis(500))
    }

    /// No depth limit, `max_time` per move.
    pub fn with_time(max_time: Duration) -> (r: Self)
        ensures
            r.wf(),
            r.fresh(),
            r.depth == u32::MAX,
            r.max_time == Some(max_time),
    {
        Self::with_limits(u32::MAX, max_time)
    }

    /// The ordering score of `mv` at `ply`: a capture scores the victim's
    /// value less the attacker's plus the promotion piece's value, and
    /// 10000 more when the victim is worth at least the attacker; en passant
    /// 10000; a promotion 9500 plus the new piece's value; a quiet move 9000
    /// or 8000 as the first or second killer of its ply, else its history
    /// score capped at 7000.
    pub open spec fn score_spec(&self, v: BoardView, mv: Move, ply: int) -> int {
        order_score(self.killers, self.history, v, mv, ply)
    }

    /// The ordering score of `mv` at `ply`.
    pub fn score_move(&self, pos: &Position, mv: Move, ply: usize) -> (r: i32)
        requires
            pos.wf(),
            mv.from < 64,
            mv.to < 64,
            ply < MAX_DEPTH,
        ensures
            r == self.score_spec(pos.view(), mv, ply as int),
    {
        match mv.flag {
            MoveFlag::Capture | MoveFlag::PromotionCapture => {
                let victim = value_on(pos, mv.to);
                let attacker = value_on(pos, mv.from);
                let promo_bonus = match mv.promotion {
                    Some(p) => piece_value_of(p.idx()),
                    None => 0,
                };
                let mvv_lva = victim - attacker;
                if mvv_lva >= 0 {
                    10_000 + mvv_lva + promo_bonus
                } else {
                    mvv_lva + promo_bonus
                }
            },
            MoveFlag::EnPassant => 10_000,
            MoveFlag::Promotion => 9_500 + match mv.promotion {
                Some(p) => piece_value_of(p.idx()),
                None => 0,
            },
            _ => {
                let k = self.killers[ply];
                if holds(k[0], &mv) {
                    9_000
                } else if holds(k[1], &mv) {
                    8_000
                } else {
                    let piece = kind_on(pos, mv.from);
                    let h = self.history[piece][mv.to as usize];
                    if h < 7_000 {
                        h
                    } else {
                        7_000
                    }
                }
            },
        }
    }

    /// The moves, best ordering score first.
    pub fn order_moves(&self, pos: &Position, moves: Vec<Move>, ply: usize) -> (r: Vec<Move>)
        requires
            pos.wf(),
            ply < MAX_DEPTH,
            forall|i: int| 0 <= i < moves@.len() ==> (#[trigger] moves@[i]).from < 64 && moves@[i].to < 64,
        ensures
            same_moves(r@, moves@),
            r@.len() == moves@.len(),
            forall|a: int, b: int| 0 <= a < b < r@.len() ==> self.score_spec(pos.view(), r@[a], ply as int) >= self.score_spec(pos.view(), r@[b], ply as int),
    {
        let mut keys: Vec<i32> = Vec::new();
        let mut i: usize = 0;
        while i < moves.len()
            invariant
                i <= moves.len(),
                keys@.len() == i,
                forall|t: int| 0 <= t < i ==> keys@[t] == self.score_spec(pos.view(), #[trigger] moves@[t], ply as int),
                pos.wf(),
                ply < MAX_DEPTH,
                forall|i: int| 0 <= i < moves@.len() ==> (#[trigger] moves@[i]).from < 64 && moves@[i].to < 64,
            decreases moves.len() - i,
        {
            let k = self.score_move(pos, moves[i], ply);
            keys.push(k);
            i = i + 1;
        }
        let ghost k0 = keys@;
        let mut sorted = moves;
        sort_by_keys(&mut sorted, &mut keys);
        proof {
            let f = |m: Move| self.score_spec(pos.view(), m, ply as int);
            assert forall|t: int| 0 <= t < moves@.len() implies k0[t] == f(#[trigger] moves@[t]) by {}
            lemma_keys_follow(moves@, k0, sorted@, keys@, f);
            assert forall|a: int, b: int| 0 <= a < b < sorted@.len() implies self.score_spec(pos.view(), sorted@[a], ply as int) >= self.score_spec(pos.view(), sorted@[b], ply as int) by {
                assert(keys@[a] == f(sorted@[a]));
                assert(keys@[b] == f(sorted@[b]));
            }
        }
        sorted
    }

    /// `mv` caused a cutoff at `ply` with `depth` left; when it is quiet, it
    /// becomes the first killer of the ply (the old first moving to second,
    /// unless it was `mv`), and its piece and target earn `depth` squared of
    /// history, saturating.
    fn record_cutoff(&mut self, pos: &Position, mv: Move, ply: usize, depth: u32)
        requires
            old(self).wf(),
            pos.wf(),
            mv.from < 64,
            mv.to < 64,
            ply < MAX_DEPTH,
            depth <= MAX_DEPTH,
        ensures
            final(self).wf(),
            final(self).depth == old(self).depth,
            final(self).max_time == old(self).max_time,
            final(self).tt == old(self).tt,
            final(self).rep_history == old(self).rep_history,
            mv.flag.is_quiet_flag() ==> (final(self).killers[ply as int][0], final(self).killers[ply as int][1])
                == killers_after(old(self).killers[ply as int], mv),
            mv.flag.is_quiet_flag() ==> final(self).history[cell_kind(pos.view().mailbox[mv.from as int])][mv.to as int]
                == raised(old(self).history[cell_kind(pos.view().mailbox[mv.from as int])][mv.to as int], depth * depth),
            forall|p: int| 0 <= p < 64 && (p != ply || !mv.flag.is_quiet_flag()) ==> #[trigger] final(self).killers[p]
                == old(self).killers[p],
            forall|k: int, t: int|
                0 <= k < 6 && 0 <= t < 64 && !(mv.flag.is_quiet_flag() && k == cell_kind(pos.view().mailbox[mv.from as int])
                    && t == mv.to) ==> #[trigger] final(self).history[k][t] == old(self).history[k][t],
    {
        let quiet = match mv.flag {
            MoveFlag::Quiet | MoveFlag::DoublePawnPush | MoveFlag::KingCastle | MoveFlag::QueenCastle => true,
            _ => false,
        };
        if quiet {
            let mut k = self.killers[ply];
            if !holds(k[0], &mv) {
                k[1] = k[0];
                k[0] = Some(mv);
            }
            self.killers[ply] = k;
            let piece = kind_on(pos, mv.from);
            proof {
                assert(depth * depth <= 4096) by (nonlinear_arith)
                    requires
                        depth <= 64,
                ;
            }
            let bonus = (depth * depth) as i32;
            let mut row = self.history[piece];
            let old = row[mv.to as usize];
            row[mv.to as usize] = if old > i32::MAX - bonus {
                i32::MAX
            } else {
                old + bonus
            };
            self.history[piece] = row;
        }
    }

    /// Stores an entry, its score kept within the bound.
    fn store(&mut self, idx: usize, hash: u64, depth: u32, score: i32, flag: TTFlag, best_move: Option<Move>)
        requires
            old(self).wf(),
            idx < TT_SIZE,
        ensures
            final(self).wf(),
            final(self).depth == old(self).depth,
            final(self).max_time == old(self).max_time,
            final(self).tt@ == old(self).tt@.update(
                idx as int,
                TTEntry { hash, depth, score: clamp_score(score), flag, best_move },
            ),
            final(self).killers == old(self).killers,
            final(self).history == old(self).history,
            final(self).rep_history == old(self).rep_history,
    {
        let e = TTEntry { hash, depth, score: bounded(score), flag, best_move };
        self.tt.set(idx, e);
    }

    /// What a usable entry (about hash `h`, searched at least `depth`)
    /// answers at `ply` in the window (`alpha`, `beta`), its score read back
    /// relative to the root: an exact score; `beta` for a lower bound at or
    /// above `beta`; `alpha` for an upper bound at or below `alpha`.
    pub open spec fn adjusted_answer(e: TTEntry, h: u64, depth: u32, ply: int, alpha: int, beta: int) -> Option<int> {
        let s = from_tt_spec(e.score as int, ply);
        if e.hash == h && e.depth >= depth {
            match e.flag {
                TTFlag::Exact => Some(s),
                TTFlag::LowerBound => if s >= beta { Some(beta) } else { None },
                TTFlag::UpperBound => if s <= alpha { Some(alpha) } else { None },
            }
        } else {
            None
        }
    }

    /// `alpha` raised to a usable lower bound above it, read back at `ply`.
    pub open spec fn adjusted_alpha(e: TTEntry, h: u64, depth: u32, ply: int, alpha: int) -> int {
        let s = from_tt_spec(e.score as int, ply);
        if e.hash == h && e.depth >= depth && e.flag == TTFlag::LowerBound && s > alpha {
            s
        } else {
            alpha
        }
    }

    /// The alpha-beta search, fail-hard in the window (`alpha`, `beta`): a
    /// position met before along the line (an even number of plies back)
    /// scores 0; a table entry deep enough answers when its bound does (its
    /// mate scores read back relative to the root); at depth 0 the material
    /// balance answers; else the moves are ordered (the table's move first),
    /// a cutoff records a killer and history and stores a lower bound, and
    /// otherwise the result is stored as exact or an upper bound. Returns
    /// `TIMEOUT` once the deadline passes. The position is left as it was.
    #[verifier::rlimit(100)]
    #[verifier::spinoff_prover]
    pub fn negamax(&mut self, pos: &mut Position, depth: u32, ply: usize, alpha: i32, beta: i32, deadline: Instant) -> (r: i32)
        requires
            old(self).wf(),
            sound(*old(pos)),
            ply + depth < MAX_DEPTH,
            old(pos).halfmove_clock + depth < u32::MAX,
            -WINDOW_BOUND - ply <= alpha <= WINDOW_BOUND + ply,
            -WINDOW_BOUND - ply <= beta <= WINDOW_BOUND + ply,
        ensures
            final(self).wf(),
            final(self).depth == old(self).depth,
            final(self).max_time == old(self).max_time,
            r == TIMEOUT || -WINDOW_BOUND - ply <= r <= WINDOW_BOUND + ply,
            node_of(*final(pos)) == node_of(*old(pos)),
            sound(*final(pos)),
            final(pos).halfmove_clock == old(pos).halfmove_clock,
            final(pos).zobrist_keys == old(pos).zobrist_keys,
            final(pos).fullmove_count == old(pos).fullmove_count,
            r != TIMEOUT ==> searched(
                old(self).tables(),
                old(self).rep_history@.take(ply as int),
                *old(pos),
                depth,
                ply as int,
                alpha as int,
                beta as int,
                r as int,
                final(self).tables(),
            ),
            forall|j: int| 0 <= j < ply ==> #[trigger] final(self).rep_history[j] == old(self).rep_history[j],
        decreases depth,
    {
        let ghost p0 = *pos;
        let ghost n0 = node_of(p0);
        let ghost alpha_in = alpha;
        if time_is_up(&deadline) {
            return TIMEOUT;
        }
        let hash = pos.zobrist_hash();
        let ghost reps0 = self.rep_history@;
        self.rep_history[ply] = hash;
        let mut k: usize = 0;
        #[verifier::loop_isolation(false)]
        while k < ply
            invariant
                ply < MAX_DEPTH,
                k <= ply + 1,
                k % 2 == 0,
                forall|j: int| 0 <= j < k && j < ply && j % 2 == 0 ==> #[trigger] reps0[j] != hash,
            decreases ply + 1 - k,
        {
            if self.rep_history[k] == hash {
                proof {
                    assert(reps0[k as int] == hash);
                    assert(reps0.take(ply as int)[k as int] == hash);
                }
                return 0;
            }
            k = k + 2;
        }
        let ghost path0 = reps0.take(ply as int);
        let ghost path1 = path0.push(hash);
        proof {
            assert(!repeated(reps0, ply as int, hash));
            assert forall|j: int| 0 <= j < ply implies #[trigger] path0[j] == reps0[j] by {}
            assert(!repeated(path0, ply as int, hash));
        }
        let tt_idx = tt_index(hash);
        let tt_entry = self.tt[tt_idx];
        proof {
            assert(-SCORE_BOUND <= self.tt@[tt_idx as int].score <= SCORE_BOUND);
        }
        let mut tt_move: Option<Move> = None;
        let mut a = alpha;
        if tt_entry.hash == hash {
            tt_move = tt_entry.best_move;
            if tt_entry.depth >= depth {
                let adjusted = score_from_tt(tt_entry.score, ply);
                match tt_entry.flag {
                    TTFlag::Exact => {
                        return adjusted;
                    },
                    TTFlag::LowerBound => {
                        if adjusted >= beta {
                            return beta;
                        }
                        if adjusted > a {
                            a = adjusted;
                        }
                    },
                    TTFlag::UpperBound => {
                        if adjusted <= a {
                            return a;
                        }
                    },
                }
            }
        }
        let ghost a0 = a as int;
        proof {
            assert(tt_entry == slot_entry(old(self).tt@, p0));
            assert(old(self).tables().0 == old(self).tt@);
            assert(Self::adjusted_answer(tt_entry, hash, depth, ply as int, alpha_in as int, beta as int) is None);
            assert(a0 == Self::adjusted_alpha(tt_entry, hash, depth, ply as int, alpha_in as int));
        }
        if depth == 0 {
            let e = evaluate_material(pos);
            proof {
                crate::eval::lemma_material_bound(pos.view());
            }
            return e;
        }
        let legal_moves = pos.get_legal_moves();
        if legal_moves.len() == 0 {
            proof {
                assert forall|m: Move| !#[trigger] legal(p0, m) by {
                    assert(!legal_moves@.contains(m));
                }
            }
            let check = pos.is_in_check(pos.side_to_move);
            return if check {
                -CHECKMATE_SCORE
            } else {
                0
            };
        }
        proof {
            assert forall|i: int| 0 <= i < legal_moves@.len() implies (#[trigger] legal_moves@[i]).from < 64 && legal_moves@[i].to < 64 by {
                assert(legal_moves@.contains(legal_moves@[i]));
                lemma_pseudo_fits(p0, legal_moves@[i]);
            }
        }
        let mut moves = self.order_moves(pos, legal_moves, ply);
        let ghost sorted0 = moves@;
        let ghost mut i_sw: int = 0;
        proof {
            lemma_same_moves(moves@, legal_moves@);
            assert forall|m: Move| #[trigger] legal(p0, m) implies moves@.contains(m) by {
                assert(legal_moves@.contains(m));
            }
            assert forall|m: Move| #[trigger] moves@.contains(m) implies legal(p0, m) by {
                assert(legal_moves@.contains(m));
            }
            assert(sorted_moves(self.killers, self.history, p0, ply as int, sorted0));
        }
        if let Some(tm) = tt_move {
            if let Some(idx) = index_of(&moves, &tm) {
                let ghost before = moves@;
                swap_moves(&mut moves, 0, idx);
                proof {
                    i_sw = idx as int;
                    lemma_same_moves(moves@, before);
                }
            }
        }
        proof {
            assert(legal_moves@.contains(legal_moves@[0]));
            assert(!no_legal_move(p0));
            let e = slot_entry(old(self).tt@, p0);
            assert(e == tt_entry);
            if e.hash == hash && e.best_move is Some && sorted0.contains(e.best_move.unwrap()) {
                assert(0 <= i_sw < sorted0.len() && sorted0[i_sw] == e.best_move.unwrap() && moves@ == sorted0.update(0, sorted0[i_sw]).update(i_sw, sorted0[0]));
            } else {
                assert(moves@ == sorted0);
            }
            let wit = sorted0[i_sw];
            assert(move_order(self.killers, self.history, p0, ply as int, e, hash, moves@));
        }
        let alpha_at_entry = a;
        let mut best_move_found: Option<Move> = None;
        let ghost tt0 = self.tables();
        let ghost mut rs: Seq<int> = Seq::empty();
        let ghost mut ts: Seq<Tables> = seq![tt0];
        let mut i: usize = 0;
        while i < moves.len()
            invariant
                old(self).rep_history@.take(ply as int) == path0,
                reps0 == old(self).rep_history@,
                hash == zobrist_spec(p0),
                tt_idx == hash % 0x100000,
                !repeated(path0, ply as int, hash),
                Self::adjusted_answer(slot_entry(tt0.0, p0), hash, depth, ply as int, alpha as int, beta as int) is None,
                a0 == Self::adjusted_alpha(slot_entry(tt0.0, p0), hash, depth, ply as int, alpha as int),
                !no_legal_move(p0),
                depth != 0,
                move_order(tt0.1, tt0.2, p0, ply as int, slot_entry(tt0.0, p0), hash, moves@),
                i <= moves.len(),
                a >= a0,
                a < beta || a == a0,
                tt0 == old(self).tables(),
                rs.len() == i,
                ts.len() == i + 1,
                ts[0] == tt0,
                ts.last() == self.tables(),
                a as int == run_alpha(a0, rs),
                forall|j: int| 0 <= j < i ==> -#[trigger] rs[j] < beta,
                trail_ok(tt0, path0, p0, depth, ply as int, beta as int, a0, moves@.take(i as int), rs, ts),
                path1 == path0.push(zobrist_spec(p0)),
                forall|j: int| 0 <= j < ply ==> #[trigger] self.rep_history[j] == reps0[j],
                self.rep_history[ply as int] == hash,
                moves@.no_duplicates(),
                forall|m: Move| #[trigger] legal(p0, m) ==> moves@.contains(m),
                1 <= depth,
                ply + depth < MAX_DEPTH,
                p0 == *old(pos),
                n0 == node_of(p0),
                tt_idx < TT_SIZE,
                p0.halfmove_clock + depth < u32::MAX,
                forall|m: Move| #[trigger] moves@.contains(m) ==> legal(p0, m),
                -WINDOW_BOUND - ply <= a <= WINDOW_BOUND + ply,
                -WINDOW_BOUND - ply <= beta <= WINDOW_BOUND + ply,
                self.wf(),
                self.depth == old(self).depth,
                self.max_time == old(self).max_time,
                node_of(*pos) == n0,
                sound(*pos),
                pos.halfmove_clock == p0.halfmove_clock,
                pos.zobrist_keys == p0.zobrist_keys,
                pos.fullmove_count == p0.fullmove_count,
            decreases moves.len() - i,
        {
            let mv = moves[i];
            let ghost q0 = *pos;
            proof {
                assert(moves@.contains(mv));
                assert(legal(q0, mv));
                lemma_pseudo_fits(q0, mv);
            }
            let undo = pos.make_move(mv);
            let ghost q = *pos;
            proof {
                lemma_legal_keeps_sound(q0, mv, q, undo);
            }
            let ghost tt_before = self.tables();
            proof {
                assert(self.rep_history@.take(ply as int + 1) =~= path1);
                assert(made(p0, mv, q, undo));
            }
            let raw = self.negamax(pos, depth - 1, ply + 1, -beta, -a, deadline);
            let ghost q1 = *pos;
            pos.undo_move(mv, undo);
            proof {
                lemma_back(q0, mv, q, q1, undo, *pos);
            }
            if raw == TIMEOUT {
                return TIMEOUT;
            }
            proof {
                assert(child_ok(tt_before, path1, p0, mv, depth, ply as int, -beta, -(a as int), raw as int, self.tables()));
                let ms1 = moves@.take(i as int + 1);
                assert(ms1.drop_last() =~= moves@.take(i as int));
                assert(ms1.last() == mv);
                assert(!moves@.take(i as int).contains(mv)) by {
                    if moves@.take(i as int).contains(mv) {
                        let k = choose|k: int| 0 <= k < i && moves@.take(i as int)[k] == mv;
                        assert(moves@[k] == moves@[i as int]);
                    }
                }
                let rs0 = rs;
                let ts0 = ts;
                rs = rs.push(raw as int);
                ts = ts.push(self.tables());
                assert(rs.drop_last() =~= rs0);
                assert(ts.drop_last() =~= ts0);
                assert(i > 0 ==> -rs[i - 1] < beta);
                assert(trail_ok(tt0, path0, p0, depth, ply as int, beta as int, a0, ms1, rs, ts));
            }
            let score = -raw;
            if score >= beta {
                self.record_cutoff(pos, mv, ply, depth);
                let stored = score_to_tt(beta, ply);
                self.store(tt_idx, hash, depth, stored, TTFlag::LowerBound, Some(mv));
                proof {
                    let ms = moves@.take(i as int + 1);
                    assert(pos.view() == p0.view());
                    assert(closes(ts.last(), p0, depth, ply as int, beta as int, a0, moves@, ms, rs, beta as int, self.tables()));
                }
                return beta;
            }
            if score > a {
                a = score;
                best_move_found = Some(mv);
            }
            i = i + 1;
        }
        let flag = if a > alpha_at_entry {
            TTFlag::Exact
        } else {
            TTFlag::UpperBound
        };
        let stored = score_to_tt(a, ply);
        self.store(tt_idx, hash, depth, stored, flag, best_move_found);
        proof {
            let ms = moves@.take(moves.len() as int);
            assert(ms =~= moves@);
            assert(closes(ts.last(), p0, depth, ply as int, beta as int, a0, moves@, ms, rs, a as int, self.tables()));
        }
        a
    }
}

/// The ordering score of a move at the root on cleared tables (no
/// killers, no history): `score_spec` with those tables.
pub open spec fn opening_score(v: BoardView, mv: Move) -> int {
    if mv.flag == MoveFlag::Capture || mv.flag == MoveFlag::PromotionCapture {
        let d = cell_value(v.mailbox[mv.to as int]) - cell_value(v.mailbox[mv.from as int]);
        if d >= 0 {
            10_000 + d + promo_value(mv.promotion)
        } else {
            d + promo_value(mv.promotion)
        }
    } else if mv.flag == MoveFlag::EnPassant {
        10_000
    } else if mv.flag == MoveFlag::Promotion {
        9_500 + promo_value(mv.promotion)
    } else {
        0
    }
}

/// Whether `m` is a legal move of `p` that comes first in the ordering on
/// cleared tables: no legal move scores higher.
pub open spec fn ordered_first(p: Position, m: Move) -> bool {
    &&& legal(p, m)
    &&& forall|x: Move| #[trigger] legal(p, x) ==> opening_score(p.view(), m) >= opening_score(p.view(), x)
}

/// One root search of `p` to depth `d`: the moves `ms` in turn from the
/// table `tt`, each searched to `d - 1` between the mated score less one
/// and the best so far (with the line `line` before the root), with the
/// results `rs` and the tables `ts` between them.
pub open spec fn root_trail(
    tt: Tables,
    line: Seq<u64>,
    p: Position,
    d: u32,
    ms: Seq<Move>,
    rs: Seq<int>,
    ts: Seq<Tables>,
) -> bool
    decreases ms.len(),
{
    if ms.len() == 0 {
        rs.len() == 0 && ts.len() == 1 && ts[0] == tt
    } else {
        let k = ms.len() - 1;
        &&& rs.len() == ms.len()
        &&& ts.len() == ms.len() + 1
        &&& root_trail(tt, line, p, d, ms.drop_last(), rs.drop_last(), ts.drop_last())
        &&& legal(p, ms.last())
        &&& !ms.drop_last().contains(ms.last())
        &&& child_ok(
            ts[k],
            line,
            p,
            ms.last(),
            d,
            0,
            -CHECKMATE_SCORE - 1,
            -run_alpha(-CHECKMATE_SCORE - 1, rs.drop_last()),
            rs.last(),
            ts.last(),
        )
    }
}

/// The move a root search picks from its results: the first whose score
/// rose above the best before it.
pub open spec fn root_pick(ms: Seq<Move>, rs: Seq<int>) -> Option<Move>
    decreases ms.len(),
{
    if ms.len() == 0 || rs.len() == 0 {
        None
    } else {
        let b = root_pick(ms.drop_last(), rs.drop_last());
        if -rs.last() > run_alpha(-CHECKMATE_SCORE - 1, rs.drop_last()) {
            Some(ms.last())
        } else {
            b
        }
    }
}

/// A root search of `p` to depth `d` that tried every legal move and
/// picked `m`.
pub open spec fn iteration_picks(
    tt: Tables,
    line: Seq<u64>,
    p: Position,
    d: u32,
    ms: Seq<Move>,
    rs: Seq<int>,
    ts: Seq<Tables>,
    m: Move,
) -> bool {
    &&& d >= 1
    &&& root_trail(tt, line, p, d, ms, rs, ts)
    &&& forall|x: Move| #[trigger] legal(p, x) ==> ms.contains(x)
    &&& root_pick(ms, rs) == Some(m)
}

impl Bot {
    /// The move to play: the history and killers cleared, the root moves
    /// ordered, then depth 1, 2, ... up to the bot's depth until the
    /// deadline (its time limit, half a second if none, from now), the best
    /// move so far tried first and the killers cleared at each depth. Plays
    /// the best move of the deepest search completed, else the first move
    /// in order; `None` without a legal move. Deepening stops below the
    /// plies the tables cover, and where the fifty-move clock could run past
    /// its range.
    #[verifier::spinoff_prover]
    pub fn best_move(&mut self, gs: &mut GameState) -> (r: Option<Move>)
        requires
            old(self).wf(),
            sound(old(gs).position),
            old(gs).position.halfmove_clock < u32::MAX,
        ensures
            final(self).wf(),
            final(self).depth == old(self).depth,
            final(self).max_time == old(self).max_time,
            r is None <==> no_legal_move(old(gs).position),
            r matches Some(m) ==> legal(old(gs).position, m),
            r matches Some(m) ==> ordered_first(old(gs).position, m) || exists|
                tt1: Tables,
                d: u32,
                ms: Seq<Move>,
                rs: Seq<int>,
                ts: Seq<Tables>,
            |
                d <= old(self).depth && #[trigger] iteration_picks(tt1, old(self).rep_history@.take(1), old(gs).position, d, ms, rs, ts, m),
            node_of(final(gs).position) == node_of(old(gs).position),
            final(gs).position.halfmove_clock == old(gs).position.halfmove_clock,
            final(gs).position.zobrist_keys == old(gs).position.zobrist_keys,
            final(gs).position.fullmove_count == old(gs).position.fullmove_count,
            final(gs).history == old(gs).history,
            final(gs).repetition_table == old(gs).repetition_table,
            final(gs).result == old(gs).result,
            final(gs).line == old(gs).line,
    {
        self.history = zero_history();
        let no_killers: [Option<Move>; 2] = [None, None];
        self.killers = [no_killers; 64];
        let ghost line = old(self).rep_history@.take(1);
        let ghost p0 = gs.position;
        let ghost n0 = node_of(p0);
        let legal_moves = gs.position.get_legal_moves();
        if legal_moves.len() == 0 {
            proof {
                assert forall|m: Move| !#[trigger] legal(p0, m) by {
                    assert(!legal_moves@.contains(m));
                }
            }
            return None;
        }
        proof {
            assert forall|i: int| 0 <= i < legal_moves@.len() implies (#[trigger] legal_moves@[i]).from < 64 && legal_moves@[i].to < 64 by {
                assert(legal_moves@.contains(legal_moves@[i]));
                lemma_pseudo_fits(p0, legal_moves@[i]);
            }
        }
        let mut moves = self.order_moves(&gs.position, legal_moves, 0);
        let ghost first = moves@[0];
        proof {
            lemma_same_moves(moves@, legal_moves@);
            assert(moves@.contains(moves@[0]));
            assert(self.killers[0] == no_killers);
            assert forall|x: Move| #[trigger] legal(p0, x) implies opening_score(p0.view(), first) >= opening_score(p0.view(), x) by {
                assert(legal_moves@.contains(x));
                assert(moves@.contains(x));
                let b = choose|b: int| 0 <= b < moves@.len() && moves@[b] == x;
                assert forall|y: Move| #[trigger] moves@.contains(y) implies self.score_spec(p0.view(), y, 0) == opening_score(p0.view(), y) by {
                    lemma_pseudo_fits(p0, y);
                    assert(cell_ok(p0.view().mailbox[y.from as int]));
                }
                assert(moves@.contains(first));
                if b > 0 {
                    assert(self.score_spec(p0.view(), moves@[0], 0) >= self.score_spec(p0.view(), moves@[b], 0));
                }
            }
            assert(ordered_first(p0, first));
        }
        let budget = match self.max_time {
            Some(d) => d,
            None => millis(500),
        };
        let deadline = deadline_in(budget);
        let mut best_move = Some(moves[0]);
        let mut depth: u32 = 1;
        while depth <= self.depth
            invariant
                forall|m: Move| #[trigger] moves@.contains(m) <==> legal(p0, m),
                n0 == node_of(p0),
                moves@.len() > 0,
                best_move matches Some(m) && legal(p0, m),
                best_move matches Some(m) && (ordered_first(p0, m) || exists|
                    tt1: Tables,
                    d: u32,
                    ms: Seq<Move>,
                    rs: Seq<int>,
                    ts: Seq<Tables>,
                |
                    d <= old(self).depth && #[trigger] iteration_picks(tt1, line, p0, d, ms, rs, ts, m)),
                line == old(self).rep_history@.take(1),
                self.rep_history[0] == old(self).rep_history[0],
                p0 == old(gs).position,
                moves@.no_duplicates(),
                depth >= 1,
                self.wf(),
                self.depth == old(self).depth,
                self.max_time == old(self).max_time,
                node_of(gs.position) == n0,
                sound(gs.position),
                gs.position.halfmove_clock == p0.halfmove_clock,
                gs.position.zobrist_keys == p0.zobrist_keys,
                gs.position.fullmove_count == p0.fullmove_count,
                gs.history == old(gs).history,
                gs.repetition_table == old(gs).repetition_table,
                gs.result == old(gs).result,
                gs.line == old(gs).line,
            decreases self.depth - depth,
        {
            if time_is_up(&deadline) {
                break;
            }
            if depth as usize >= MAX_DEPTH || gs.position.halfmove_clock as u64 + depth as u64 >= 0xffff_ffff {
                break;
            }
            if let Some(bm) = best_move {
                if let Some(idx) = index_of(&moves, &bm) {
                    let ghost before = moves@;
                    swap_moves(&mut moves, 0, idx);
                    proof {
                        lemma_same_moves(moves@, before);
                    }
                }
            }
            self.killers = [[None; 2]; 64];
            let mut current_best: Option<Move> = None;
            let mut alpha: i32 = -CHECKMATE_SCORE - 1;
            let mut completed = true;
            let ghost tt_it = self.tables();
            let ghost mut rs: Seq<int> = Seq::empty();
            let ghost mut ts: Seq<Tables> = seq![tt_it];
            let mut i: usize = 0;
            while i < moves.len()
                invariant_except_break
                    completed,
                    rs.len() == i,
                    ts.len() == i + 1,
                    ts.last() == self.tables(),
                    alpha as int == run_alpha(-CHECKMATE_SCORE - 1, rs),
                    current_best == root_pick(moves@.take(i as int), rs),
                    root_trail(tt_it, line, p0, depth, moves@.take(i as int), rs, ts),
                invariant
                    i <= moves.len(),
                    line == old(self).rep_history@.take(1),
                    self.rep_history[0] == old(self).rep_history[0],
                    moves@.no_duplicates(),
                    forall|m: Move| #[trigger] moves@.contains(m) <==> legal(p0, m),
                    n0 == node_of(p0),
                    1 <= depth < MAX_DEPTH,
                    p0.halfmove_clock + depth < u32::MAX,
                    -WINDOW_BOUND - 1 <= alpha <= WINDOW_BOUND + 1,
                    current_best matches Some(m) ==> legal(p0, m),
                    self.wf(),
                    self.depth == old(self).depth,
                    self.max_time == old(self).max_time,
                    node_of(gs.position) == n0,
                    sound(gs.position),
                    gs.position.halfmove_clock == p0.halfmove_clock,
                    gs.position.zobrist_keys == p0.zobrist_keys,
                    gs.position.fullmove_count == p0.fullmove_count,
                    gs.history == old(gs).history,
                    gs.repetition_table == old(gs).repetition_table,
                    gs.result == old(gs).result,
                    gs.line == old(gs).line,
                ensures
                    completed ==> {
                        &&& i == moves.len()
                        &&& current_best == root_pick(moves@.take(i as int), rs)
                        &&& root_trail(tt_it, line, p0, depth, moves@.take(i as int), rs, ts)
                    },
                decreases moves.len() - i,
            {
                let mv = moves[i];
                let ghost q0 = gs.position;
                proof {
                    assert(moves@.contains(mv));
                    assert(legal(q0, mv));
                    lemma_pseudo_fits(q0, mv);
                }
                let undo = gs.position.make_move(mv);
                let ghost q = gs.position;
                proof {
                    lemma_legal_keeps_sound(q0, mv, q, undo);
                }
                let ghost tt_before = self.tables();
                proof {
                    assert(self.rep_history@.take(1) =~= line);
                    assert(made(p0, mv, q, undo));
                }
                let raw = self.negamax(&mut gs.position, depth - 1, 1, -CHECKMATE_SCORE - 1, -alpha, deadline);
                proof {
                    if raw != TIMEOUT {
                        assert(child_ok(tt_before, line, p0, mv, depth, 0, -CHECKMATE_SCORE - 1, -(alpha as int), raw as int, self.tables()));
                    }
                }
                let ghost q1 = gs.position;
                gs.position.undo_move(mv, undo);
                proof {
                    lemma_back(q0, mv, q, q1, undo, gs.position);
                }
                if raw == TIMEOUT {
                    completed = false;
                    break;
                }
                proof {
                    let ms1 = moves@.take(i as int + 1);
                    assert(ms1.drop_last() =~= moves@.take(i as int));
                    assert(ms1.last() == mv);
                    assert(!moves@.take(i as int).contains(mv)) by {
                        if moves@.take(i as int).contains(mv) {
                            let k = choose|k: int| 0 <= k < i && moves@.take(i as int)[k] == mv;
                            assert(moves@[k] == moves@[i as int]);
                        }
                    }
                    let rs0 = rs;
                    let ts0 = ts;
                    rs = rs.push(raw as int);
                    ts = ts.push(self.tables());
                    assert(rs.drop_last() =~= rs0);
                    assert(ts.drop_last() =~= ts0);
                    assert(root_trail(tt_it, line, p0, depth, ms1, rs, ts));
                }
                let score = -raw;
                if score > alpha {
                    alpha = score;
                    current_best = Some(mv);
                }
                i = i + 1;
            }
            if completed {
                if let Some(mv) = current_best {
                    proof {
                        assert(moves@.take(moves.len() as int) =~= moves@);
                        assert forall|x: Move| #[trigger] legal(p0, x) implies moves@.take(moves.len() as int).contains(x) by {
                            assert(moves@.contains(x));
                        }
                        assert(iteration_picks(tt_it, line, p0, depth, moves@.take(moves.len() as int), rs, ts, mv));
                    }
                    best_move = Some(mv);
                }
            }
            if depth == self.depth {
                break;
            }
            depth = depth + 1;
        }
        best_move
    }
}

} // verus!

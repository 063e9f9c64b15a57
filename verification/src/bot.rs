//! The engine's player: an alpha-beta search with iterative deepening and
//! aspiration windows, a transposition table, null-move pruning, late-move
//! reductions, killer and history move ordering, static exchange
//! evaluation, and a quiescence search, on the full static evaluation.
use vstd::prelude::*;
use core::time::Duration;
use web_time::Instant;
use crate::bits::group_bit_lemmas;
use crate::bitboards::{BoardView, cell_ok, pidx, lemma_view_index};
use crate::types::{Color, MoveFlag, Move, move_eq, lemma_piece_index, lemma_color_index};
use crate::position::{Position, Undo, made, piece_at, attacked, king_square, law_undo_restores, zobrist_spec};
use crate::attacks::pawn_step;
use crate::movegen::{node_of, legal, sound, lemma_pseudo_fits, lemma_legal_keeps_sound, lemma_back};
use crate::eval::{evaluate, piece_value, piece_value_of};
use crate::see::{see, see_value};
use crate::game::{GameState, no_legal_move};
use crate::search::{
    CHECKMATE_SCORE, TIMEOUT, TTEntry, TTFlag, TT_SIZE, tt_index, SCORE_BOUND, WINDOW_BOUND, bounded, clamp_score, time_is_up, deadline_in, millis, empty_table, sort_by_keys, same_moves, lemma_same_moves, lemma_keys_follow, raised, killers_after, index_of, swap_moves, repeated, repetition_score,
};
use crate::gauntlet::v5_move_ordering::{cell_kind, promo_value};
use crate::gauntlet::negamax::in_check_at;
use crate::gauntlet::alphabeta::window_ok;
use crate::movegen::Node;
use crate::perft::{next_node, legal_set, lemma_node_made};
use crate::eval::evaluation;
use vstd::set::fold::{lemma_fold_insert, lemma_fold_empty, is_fun_commutative};

verus! {

broadcast use group_bit_lemmas, lemma_view_index, lemma_piece_index, lemma_color_index;

/// The plies the killer, repetition and static-evaluation tables cover.
pub const MAX_DEPTH: usize = 128;

/// The plies beyond which the quiescence search stands pat.
pub const QUIESCENCE_PLY_CAP: usize = 255;

/// The natural logarithm of `i`, times 2^24, rounded (0 for 0 and 1).
pub const LN_FIXED: [u64; 64] = [
    0, 0, 11629080, 18431656, 23258160, 27001887, 30060736, 32646955,
    34887240, 36863311, 38630967, 40230007, 41689816, 43032709, 44276035, 45433543,
    46516320, 47533432, 48492391, 49399489, 50260047, 51078611, 51859087, 52604864,
    53318896, 54003775, 54661789, 55294967, 55905115, 56493849, 57062623, 57612745,
    58145400, 58661663, 59162512, 59648842, 60121471, 60581150, 61028569, 61464365,
    61889127, 62303401, 62707691, 63102467, 63488167, 63865199, 64233944, 64594758,
    64947976, 65293910, 65632855, 65965088, 66290869, 66610445, 66924047, 67231894,
    67534195, 67831144, 68122929, 68409726, 68691703, 68969019, 69241825, 69510266,
];

/// The late-move reduction for a search of `depth` plies at the `moves`-th
/// move: half the product of their logarithms, at least 1 (0 where either
/// is 0).
pub open spec fn lmr_entry(depth: int, moves: int) -> u32 {
    if depth == 0 || moves == 0 {
        0
    } else {
        let r = (LN_FIXED[depth] as int * LN_FIXED[moves] as int) / 0x2_0000_0000_0000;
        if r < 1 {
            1
        } else {
            r as u32
        }
    }
}

/// The late-move reduction table, indexed by depth and move number.
pub fn build_lmr_table() -> (t: Vec<[u32; 64]>)
    ensures
        t@.len() == 64,
        forall|d: int, m: int| 0 <= d < 64 && 0 <= m < 64 ==> #[trigger] t@[d][m] == lmr_entry(d, m),
        forall|d: int, m: int| 0 <= d < 64 && 0 <= m < 64 ==> #[trigger] t@[d][m] <= 64,
{
    let mut t: Vec<[u32; 64]> = Vec::new();
    let mut depth: usize = 0;
    while depth < 64
        invariant
            depth <= 64,
            t@.len() == depth,
            forall|d: int, m: int| 0 <= d < depth && 0 <= m < 64 ==> #[trigger] t@[d][m] == lmr_entry(d, m),
            forall|d: int, m: int| 0 <= d < depth && 0 <= m < 64 ==> #[trigger] t@[d][m] <= 64,
        decreases 64 - depth,
    {
        let mut row = [0u32; 64];
        let mut moves: usize = 0;
        while moves < 64
            invariant
                depth < 64,
                moves <= 64,
                forall|m: int| 0 <= m < moves ==> #[trigger] row[m] == lmr_entry(depth as int, m),
                forall|m: int| 0 <= m < moves ==> #[trigger] row[m] <= 64,
            decreases 64 - moves,
        {
            if depth > 0 && moves > 0 {
                let a = LN_FIXED[depth];
                let b = LN_FIXED[moves];
                proof {
                    assert(a <= 69510266 && b <= 69510266);
                    assert(a * b <= 69510266 * 69510266) by (nonlinear_arith)
                        requires
                            a <= 69510266,
                            b <= 69510266,
                    ;
                    assert((a * b) / 0x2_0000_0000_0000 <= 64) by (nonlinear_arith)
                        requires
                            a * b <= 69510266 * 69510266,
                    ;
                }
                let r = (a * b) / 0x2_0000_0000_0000;
                row[moves] = if r < 1 {
                    1
                } else {
                    r as u32
                };
            } else {
                row[moves] = 0;
            }
            moves = moves + 1;
        }
        t.push(row);
        depth = depth + 1;
    }
    t
}

/// A pawn of color `c` attacks `sq`.
pub open spec fn pawn_guards(v: BoardView, c: int, sq: int) -> bool {
    exists|a: int| 0 <= a < 64 && piece_at(v, a, c, 0) && #[trigger] pawn_step(c, a, sq)
}

/// The player: search limits and the tables the search learns into.
pub struct Bot {
    pub depth: u32,
    pub max_time: Option<Duration>,
    pub killers: [[Option<Move>; 2]; 128],
    pub history: [[i32; 64]; 6],
    pub rep_history: [u64; 128],
    pub tt: Vec<TTEntry>,
    pub static_evals: [i32; 128],
    pub lmr_table: Vec<[u32; 64]>,
}

impl Bot {
    /// The tables have their sizes, and stored scores stay within the bound.
    pub open spec fn wf(&self) -> bool {
        &&& self.tt@.len() == TT_SIZE
        &&& self.lmr_table@.len() == 64
        &&& forall|i: int| 0 <= i < self.tt@.len() ==> -SCORE_BOUND <= #[trigger] self.tt@[i].score <= SCORE_BOUND
        &&& forall|k: int, s: int| 0 <= k < 6 && 0 <= s < 64 ==> 0 <= #[trigger] self.history[k][s]
        &&& forall|d: int, m: int| 0 <= d < 64 && 0 <= m < 64 ==> #[trigger] self.lmr_table@[d][m] <= 64
    }

    /// The tables the search reads and writes.
    pub open spec fn tables(&self) -> Tables {
        (self.tt@, self.killers, self.history)
    }

    /// The tables as a new player has them: every table entry empty, no
    /// killers, no history, no line, the reduction table filled.
    pub open spec fn fresh(&self) -> bool {
        &&& forall|i: int|
            0 <= i < self.tt@.len() ==> #[trigger] self.tt@[i] == (TTEntry {
                hash: 0,
                depth: 0,
                score: 0,
                flag: TTFlag::Exact,
                best_move: None,
            })
        &&& forall|p: int, j: int| 0 <= p < 128 && 0 <= j < 2 ==> #[trigger] self.killers[p][j] is None
        &&& forall|k: int, s: int| 0 <= k < 6 && 0 <= s < 64 ==> #[trigger] self.history[k][s] == 0
        &&& forall|p: int| 0 <= p < 128 ==> #[trigger] self.rep_history[p] == 0
        &&& forall|d: int, m: int| 0 <= d < 64 && 0 <= m < 64 ==> #[trigger] self.lmr_table@[d][m] == lmr_entry(d, m)
    }

    /// A player with the given limits and empty tables.
    fn with_limits(depth: u32, max_time: Duration) -> (r: Self)
        ensures
            r.wf(),
            r.fresh(),
            r.depth == depth,
            r.max_time == Some(max_time),
    {
        let history = zero_history();
        let lmr_table = build_lmr_table();
        let tt = empty_table(TT_SIZE);
        let no_killers: [Option<Move>; 2] = [None, None];
        let killers = [no_killers; 128];
        proof {
            assert forall|p: int, j: int| 0 <= p < 128 && 0 <= j < 2 implies #[trigger] killers[p][j] is None by {
                assert(killers[p] == no_killers);
            }
        }
        let r = Bot {
            depth,
            max_time: Some(max_time),
            killers,
            history,
            rep_history: [0; 128],
            tt,
            static_evals: [-CHECKMATE_SCORE; 128],
            lmr_table,
        };
        proof {
            assert(r.tt@.len() == TT_SIZE);
            assert(r.lmr_table@.len() == 64);
            assert(forall|i: int| 0 <= i < r.tt@.len() ==> -SCORE_BOUND <= #[trigger] r.tt@[i].score <= SCORE_BOUND);
            assert(forall|k: int, s: int| 0 <= k < 6 && 0 <= s < 64 ==> 0 <= #[trigger] r.history[k][s]);
            assert(forall|d: int, m: int| 0 <= d < 64 && 0 <= m < 64 ==> #[trigger] r.lmr_table@[d][m] <= 64);
        }
        r
    }

    /// No depth limit, half a second per move.
    #[allow(clippy::new_without_default)]
    pub fn new() -> (r: Self)
        ensures
            r.wf(),
            r.fresh(),
            r.depth == u32::MAX,
            r.max_time is Some,
    {
        Self::with_limits(u32::MAX, millis(500))
    }

    /// At most `depth` plies, half a second per move.
    pub fn with_depth(depth: u32) -> (r: Self)
        ensures
            r.wf(),
            r.fresh(),
            r.depth == depth,
            r.max_time is Some,
    {
        Self::with_limits(depth, millis(500))
    }

    /// No depth limit, `max_time` per move.
    pub fn with_time(max_time: Duration) -> (r: Self)
        ensures
            r.wf(),
            r.fresh(),
            r.depth == u32::MAX,
            r.max_time == Some(max_time),
    {
        Self::with_limits(u32::MAX, max_time)
    }

    /// The ordering score of `mv` at `ply`: a capture scores its static
    /// exchange value plus the promotion piece's value, and 10000 more when
    /// the exchange does not lose; en passant 10000; a promotion 9500 plus
    /// the new piece's value; a quiet move 9000 or 8000 as the first or
    /// second killer of its ply, else its history score capped at 7000, less
    /// its piece's value when a pawn of the other side guards the target.
    pub open spec fn score_spec(&self, v: BoardView, side: Color, mv: Move, ply: int) -> int {
        order_score(self.killers, self.history, v, side, mv, ply)
    }

    /// The ordering score of `mv` at `ply` (past the killer table's plies,
    /// a move is no killer).
    pub fn score_move(&self, pos: &Position, mv: Move, ply: usize) -> (r: i32)
        requires
            self.wf(),
            pos.wf(),
            mv.from < 64,
            mv.to < 64,
        ensures
            r == self.score_spec(pos.view(), pos.side_to_move, mv, ply as int),
    {
        match mv.flag {
            MoveFlag::Capture | MoveFlag::PromotionCapture => {
                let see_val = see(pos, mv);
                let promo_bonus = match mv.promotion {
                    Some(p) => piece_value_of(p.idx()),
                    None => 0,
                };
                if see_val >= 0 {
                    10_000 + see_val + promo_bonus
                } else {
                    see_val + promo_bonus
                }
            },
            MoveFlag::EnPassant => 10_000,
            MoveFlag::Promotion => 9_500 + match mv.promotion {
                Some(p) => piece_value_of(p.idx()),
                None => 0,
            },
            _ => {
                if ply < MAX_DEPTH {
                    let k = self.killers[ply];
                    if holds(k[0], &mv) {
                        return 9_000;
                    } else if holds(k[1], &mv) {
                        return 8_000;
                    }
                }
                proof {
                    assert(cell_ok(pos.view().mailbox[mv.from as int]));
                }
                let piece: usize = match pos.bitboards.mailbox[mv.from as usize] {
                    Some((_, p)) => p as usize,
                    None => 0,
                };
                let h = self.history[piece][mv.to as usize];
                let hist = if h < 7_000 {
                    h
                } else {
                    7_000
                };
                let penalty = if pos.is_attacked_by_pawn(mv.to, pos.side_to_move.opposite()) {
                    piece_value_of(piece)
                } else {
                    0
                };
                hist - penalty
            },
        }
    }
}

/// A history table of zeros.
pub(crate) fn zero_history() -> (h: [[i32; 64]; 6])
    ensures
        forall|k: int, s: int| 0 <= k < 6 && 0 <= s < 64 ==> #[trigger] h[k][s] == 0,
{
    let row = [0i32; 64];
    let h = [row; 6];
    proof {
        assert forall|k: int, s: int| 0 <= k < 6 && 0 <= s < 64 implies #[trigger] h[k][s] == 0 by {
            assert(h[k] == row);
            assert(row[s] == 0);
        }
    }
    h
}

/// Whether the killer slot holds `mv`.
fn holds(k: Option<Move>, mv: &Move) -> (r: bool)
    ensures
        r == (k == Some(*mv)),
{
    match k {
        Some(x) => move_eq(&x, mv),
        None => false,
    }
}

/// A noisy move: a capture, en passant or a promotion.
pub open spec fn is_noisy(mv: Move) -> bool {
    mv.flag == MoveFlag::Capture || mv.flag == MoveFlag::PromotionCapture || mv.flag == MoveFlag::EnPassant
        || mv.flag == MoveFlag::Promotion
}

/// The ordering score of `mv` at `ply` with the killer table `killers` and
/// the history table `history`: a capture scores its static exchange value
/// plus the promotion piece's value, and 10000 more when the exchange does
/// not lose; en passant 10000; a promotion 9500 plus the new piece's value;
/// a quiet move 9000 or 8000 as the first or second killer of its ply, else
/// its history score capped at 7000, less its piece's value when a pawn of
/// the other side guards the target.
pub open spec fn order_score(
    killers: [[Option<Move>; 2]; 128],
    history: [[i32; 64]; 6],
    v: BoardView,
    side: Color,
    mv: Move,
    ply: int,
) -> int {
    if mv.flag == MoveFlag::Capture || mv.flag == MoveFlag::PromotionCapture {
        let s = see_value(v, side.index(), mv);
        if s >= 0 {
            10_000 + s + promo_value(mv.promotion)
        } else {
            s + promo_value(mv.promotion)
        }
    } else if mv.flag == MoveFlag::EnPassant {
        10_000
    } else if mv.flag == MoveFlag::Promotion {
        9_500 + promo_value(mv.promotion)
    } else if ply < MAX_DEPTH && killers[ply][0] == Some(mv) {
        9_000
    } else if ply < MAX_DEPTH && killers[ply][1] == Some(mv) {
        8_000
    } else {
        let piece = cell_kind(v.mailbox[mv.from as int]);
        let h = history[piece][mv.to as int] as int;
        let hist = if h < 7_000 { h } else { 7_000 };
        hist - if pawn_guards(v, side.other().index(), mv.to as int) { piece_value(piece) } else { 0 }
    }
}

/// The late-move reduction with the reduction table `lmr` and the history
/// table `history`, on the board `v` after the move is made: the table's
/// entry for the depth and move number (both capped at 63), one less in a
/// principal line and one less when the evaluation improves, less the
/// history score of the piece on the move's origin and its target over
/// 4096, capped at 2, kept between 0 and the depth less one.
pub open spec fn reduction_of(
    lmr: Seq<[u32; 64]>,
    history: [[i32; 64]; 6],
    v: BoardView,
    mv: Move,
    depth: u32,
    i: int,
    is_pv: bool,
    improving: bool,
) -> int {
    let d = if depth < 63 { depth as int } else { 63 };
    let m = if i < 63 { i } else { 63 };
    let base = lmr[d][m] - (if is_pv { 1int } else { 0 }) - (if improving { 1int } else { 0 });
    let h = history[cell_kind(v.mailbox[mv.from as int])][mv.to as int] / 4096;
    let adj = if h < -2 { -2 } else if h > 2 { 2 } else { h };
    let raw = base - adj;
    if raw < 0 { 0 } else if raw > depth - 1 { depth - 1 } else { raw }
}

/// The noisy moves of `moves`, in order.
pub(crate) fn noisy_moves(moves: &Vec<Move>) -> (r: Vec<Move>)
    ensures
        forall|m: Move| #[trigger] r@.contains(m) <==> (moves@.contains(m) && is_noisy(m)),
        moves@.no_duplicates() ==> r@.no_duplicates(),
{
    let mut r: Vec<Move> = Vec::new();
    let mut i: usize = 0;
    while i < moves.len()
        invariant
            i <= moves.len(),
            forall|m: Move| #[trigger] r@.contains(m) <==> (moves@.take(i as int).contains(m) && is_noisy(m)),
            moves@.no_duplicates() ==> r@.no_duplicates(),
        decreases moves.len() - i,
    {
        let mv = moves[i];
        let noisy = match mv.flag {
            MoveFlag::Capture | MoveFlag::PromotionCapture | MoveFlag::EnPassant | MoveFlag::Promotion => true,
            _ => false,
        };
        let ghost before = r@;
        proof {
            assert forall|m: Move| #[trigger] moves@.take(i as int + 1).contains(m) <==> (moves@.take(i as int).contains(m) || m == mv) by {
                if moves@.take(i as int + 1).contains(m) {
                    let j = choose|j: int| 0 <= j < i + 1 && #[trigger] moves@.take(i as int + 1)[j] == m;
                    if j < i {
                        assert(moves@.take(i as int)[j] == m);
                    }
                }
                if moves@.take(i as int).contains(m) {
                    let j = choose|j: int| 0 <= j < i && #[trigger] moves@.take(i as int)[j] == m;
                    assert(moves@.take(i as int + 1)[j] == m);
                }
                if m == mv {
                    assert(moves@.take(i as int + 1)[i as int] == m);
                }
            }
            if moves@.no_duplicates() && moves@.take(i as int).contains(mv) {
                let j = choose|j: int| 0 <= j < i && #[trigger] moves@.take(i as int)[j] == mv;
                assert(moves@[j] == moves@[i as int]);
            }
        }
        if noisy {
            r.push(mv);
            proof {
                assert forall|m: Move| #[trigger] r@.contains(m) <==> (before.contains(m) || m == mv) by {
                    if r@.contains(m) {
                        let j = choose|j: int| 0 <= j < r@.len() && #[trigger] r@[j] == m;
                        if j < before.len() {
                            assert(before[j] == m);
                        }
                    }
                    if before.contains(m) {
                        let j = choose|j: int| 0 <= j < before.len() && #[trigger] before[j] == m;
                        assert(r@[j] == m);
                    }
                    if m == mv {
                        assert(r@[before.len() as int] == m);
                    }
                }
                if moves@.no_duplicates() {
                    assert forall|a: int, b: int| 0 <= a < r@.len() && 0 <= b < r@.len() && a != b implies r@[a] != r@[b] by {
                        if a < before.len() && b < before.len() {
                            assert(before[a] != before[b]);
                        } else if a < before.len() {
                            assert(before.contains(r@[a]));
                        } else {
                            assert(before.contains(r@[b]));
                        }
                    }
                }
            }
        }
        i = i + 1;
    }
    proof {
        assert(moves@.take(moves.len() as int) =~= moves@);
    }
    r
}

/// Below every score a search window can hold: where the best of the
/// moves starts.
pub open spec fn q_floor() -> int {
    -WINDOW_BOUND - QUIESCENCE_PLY_CAP - 1
}

/// The static evaluation of a node, from its side to move's view.
pub open spec fn eval_at(n: Node) -> int {
    evaluation(n.v, Color::from_index(n.c))
}

/// The moves the quiescence search tries at `n`: every legal move when in
/// check, else the noisy ones.
pub open spec fn q_moves(n: Node) -> Set<Move> {
    if in_check_at(n) {
        legal_set(n)
    } else {
        legal_set(n).filter(|m: Move| is_noisy(m))
    }
}

/// The best so far and a move's child value (at `ply`) seen from `n`, the
/// larger of the two; a move losing material by static exchange counts
/// for nothing when not in check.
pub open spec fn q_step(n: Node, ply: nat) -> spec_fn(int, Move) -> int
    decreases QUIESCENCE_PLY_CAP - ply, 2int,
{
    |acc: int, m: Move|
        {
            if !in_check_at(n) && see_value(n.v, n.c, m) < 0 {
                acc
            } else {
                let v = -qvalue(next_node(n, m), ply);
                if v > acc {
                    v
                } else {
                    acc
                }
            }
        }
}

/// The quiescence value of `n` at `ply`: past the cap its evaluation; when
/// mated `-CHECKMATE_SCORE`; else the best of its quiescence moves'
/// children's values negated, or, when not in check, its evaluation where
/// that is higher.
pub open spec fn qvalue(n: Node, ply: nat) -> int
    decreases QUIESCENCE_PLY_CAP - ply, 1int,
{
    if ply >= QUIESCENCE_PLY_CAP {
        eval_at(n)
    } else if in_check_at(n) && legal_set(n) =~= Set::empty() {
        -CHECKMATE_SCORE
    } else {
        let best = q_moves(n).fold(q_floor(), q_step(n, ply + 1));
        if !in_check_at(n) && eval_at(n) > best {
            eval_at(n)
        } else {
            best
        }
    }
}

/// The best over the moves `s` in order, from `q_floor`.
pub open spec fn q_seq(n: Node, ply: nat, s: Seq<Move>) -> int
    decreases s.len(),
{
    if s.len() == 0 {
        q_floor()
    } else {
        q_step(n, ply)(q_seq(n, ply, s.drop_last()), s.last())
    }
}

/// Over a list without repeats, the best in order is the fold over its set.
pub proof fn lemma_q_seq_fold(n: Node, ply: nat, s: Seq<Move>)
    requires
        s.no_duplicates(),
    ensures
        s.to_set().finite(),
        q_seq(n, ply, s) == s.to_set().fold(q_floor(), q_step(n, ply)),
    decreases s.len(),
{
    let f = q_step(n, ply);
    assert(is_fun_commutative(f)) by {
        assert forall|a1: Move, a2: Move, b: int| #[trigger] f(f(b, a2), a1) == f(f(b, a1), a2) by {}
    }
    if s.len() == 0 {
        assert(s.to_set() =~= Set::<Move>::empty());
        lemma_fold_empty(q_floor(), f);
    } else {
        let t = s.drop_last();
        let m = s.last();
        assert(t.no_duplicates()) by {
            assert forall|i: int, j: int| 0 <= i < t.len() && 0 <= j < t.len() && i != j implies t[i] != t[j] by {
                assert(t[i] == s[i] && t[j] == s[j]);
            }
        }
        lemma_q_seq_fold(n, ply, t);
        assert(!t.contains(m)) by {
            if t.contains(m) {
                let k = choose|k: int| 0 <= k < t.len() && t[k] == m;
                assert(s[k] == s[s.len() - 1]);
            }
        }
        assert(s.to_set() =~= t.to_set().insert(m)) by {
            assert forall|x: Move| #[trigger] s.contains(x) <==> t.contains(x) || x == m by {
                if s.contains(x) && x != m {
                    let k = choose|k: int| 0 <= k < s.len() && s[k] == x;
                    assert(t[k] == x);
                }
                if t.contains(x) {
                    let k = choose|k: int| 0 <= k < t.len() && t[k] == x;
                    assert(s[k] == x);
                }
                if x == m {
                    assert(s[s.len() - 1] == x);
                }
            }
        }
        lemma_fold_insert(t.to_set(), q_floor(), f, m);
    }
}

/// The best over a list is at least the best over any prefix of it.
pub proof fn lemma_q_seq_ge(n: Node, ply: nat, s: Seq<Move>, k: int)
    requires
        0 <= k <= s.len(),
    ensures
        q_seq(n, ply, s) >= q_seq(n, ply, s.take(k)),
    decreases s.len(),
{
    if k == s.len() {
        assert(s.take(k) =~= s);
    } else {
        let t = s.drop_last();
        assert(s.take(k) =~= t.take(k));
        lemma_q_seq_ge(n, ply, t, k);
    }
}

impl Bot {
    /// The moves, best ordering score first.
    pub fn order_moves(&self, pos: &Position, moves: Vec<Move>, ply: usize) -> (r: Vec<Move>)
        requires
            self.wf(),
            pos.wf(),
            forall|i: int| 0 <= i < moves@.len() ==> (#[trigger] moves@[i]).from < 64 && moves@[i].to < 64,
        ensures
            same_moves(r@, moves@),
            r@.len() == moves@.len(),
            forall|a: int, b: int| 0 <= a < b < r@.len() ==> self.score_spec(pos.view(), pos.side_to_move, r@[a], ply as int) >= self.score_spec(pos.view(), pos.side_to_move, r@[b], ply as int),
    {
        let mut keys: Vec<i32> = Vec::new();
        let mut i: usize = 0;
        while i < moves.len()
            invariant
                i <= moves.len(),
                keys@.len() == i,
                forall|t: int| 0 <= t < i ==> keys@[t] == self.score_spec(pos.view(), pos.side_to_move, #[trigger] moves@[t], ply as int),
                self.wf(),
                pos.wf(),
                forall|i: int| 0 <= i < moves@.len() ==> (#[trigger] moves@[i]).from < 64 && moves@[i].to < 64,
            decreases moves.len() - i,
        {
            let k = self.score_move(pos, moves[i], ply);
            keys.push(k);
            i = i + 1;
        }
        let ghost k0 = keys@;
        let mut sorted = moves;
        sort_by_keys(&mut sorted, &mut keys);
        proof {
            let f = |m: Move| self.score_spec(pos.view(), pos.side_to_move, m, ply as int);
            assert forall|t: int| 0 <= t < moves@.len() implies k0[t] == f(#[trigger] moves@[t]) by {}
            lemma_keys_follow(moves@, k0, sorted@, keys@, f);
            assert forall|a: int, b: int| 0 <= a < b < sorted@.len() implies self.score_spec(pos.view(), pos.side_to_move, sorted@[a], ply as int) >= self.score_spec(pos.view(), pos.side_to_move, sorted@[b], ply as int) by {
                assert(keys@[a] == f(sorted@[a]));
                assert(keys@[b] == f(sorted@[b]));
            }
        }
        sorted
    }

    /// The search of captures (and of every move when in check) until the
    /// position is quiet, fail-hard in the window (`alpha`, `beta`): the
    /// side to move may stand on the static evaluation when not in check;
    /// captures losing material by static exchange are skipped. Returns
    /// `TIMEOUT` once the deadline passes, `-CHECKMATE_SCORE` when mated.
    /// Past `QUIESCENCE_PLY_CAP` plies the position's evaluation stands,
    /// held to the window.
    /// The position is left as it was.
    #[verifier::rlimit(80)]
    #[verifier::spinoff_prover]
    pub fn quiescence(&mut self, pos: &mut Position, ply: usize, alpha: i32, beta: i32, deadline: Instant) -> (r: i32)
        requires
            old(self).wf(),
            sound(*old(pos)),
            ply <= QUIESCENCE_PLY_CAP,
            old(pos).halfmove_clock + (QUIESCENCE_PLY_CAP - ply) < u32::MAX,
            -WINDOW_BOUND - ply <= alpha <= WINDOW_BOUND + ply,
            -WINDOW_BOUND - ply <= beta <= WINDOW_BOUND + ply,
        ensures
            final(self).wf(),
            final(self).depth == old(self).depth,
            final(self).max_time == old(self).max_time,
            final(self).tt == old(self).tt,
            final(self).rep_history == old(self).rep_history,
            final(self).killers == old(self).killers,
            final(self).history == old(self).history,
            final(self).static_evals == old(self).static_evals,
            final(self).lmr_table == old(self).lmr_table,
            r == TIMEOUT || -WINDOW_BOUND - ply <= r <= WINDOW_BOUND + ply,
            r == TIMEOUT || window_ok(qvalue(node_of(*old(pos)), ply as nat), r as int, alpha as int, beta as int),
            r != TIMEOUT && alpha <= beta && !(in_check_at(node_of(*old(pos))) && no_legal_move(*old(pos))) ==> alpha <= r <= beta,
            node_of(*final(pos)) == node_of(*old(pos)),
            sound(*final(pos)),
            final(pos).halfmove_clock == old(pos).halfmove_clock,
            final(pos).zobrist_keys == old(pos).zobrist_keys,
            final(pos).fullmove_count == old(pos).fullmove_count,
        decreases QUIESCENCE_PLY_CAP - ply,
    {
        let ghost p0 = *pos;
        let ghost n0 = node_of(p0);
        let ghost alpha0 = alpha as int;
        if time_is_up(&deadline) {
            return TIMEOUT;
        }
        if ply >= QUIESCENCE_PLY_CAP {
            let e = evaluate(pos);
            return if e >= beta {
                beta
            } else if e > alpha {
                e
            } else {
                alpha
            };
        }
        let in_check = pos.is_in_check(pos.side_to_move);
        let mut alpha = alpha;
        if !in_check {
            let stand_pat = evaluate(pos);
            if stand_pat >= beta {
                return beta;
            }
            if stand_pat > alpha {
                alpha = stand_pat;
            }
        }
        let ghost lo = alpha as int;
        let all_moves = pos.get_legal_moves();
        if all_moves.len() == 0 {
            proof {
                assert(legal_set(n0) =~= Set::<Move>::empty()) by {
                    assert forall|m: Move| !#[trigger] legal_set(n0).contains(m) by {
                        assert(!all_moves@.contains(m));
                    }
                }
                assert(q_moves(n0) =~= Set::<Move>::empty());
                lemma_fold_empty(q_floor(), q_step(n0, (ply + 1) as nat));
            }
            proof {
                assert forall|m: Move| !#[trigger] legal(p0, m) by {
                    assert(!all_moves@.contains(m));
                }
                assert(no_legal_move(p0));
            }
            return if in_check {
                -CHECKMATE_SCORE
            } else {
                alpha
            };
        }
        let candidates = if !in_check {
            noisy_moves(&all_moves)
        } else {
            all_moves
        };
        proof {
            assert forall|i: int| 0 <= i < candidates@.len() implies (#[trigger] candidates@[i]).from < 64 && candidates@[i].to < 64 by {
                assert(candidates@.contains(candidates@[i]));
                assert(all_moves@.contains(candidates@[i]));
                lemma_pseudo_fits(p0, candidates@[i]);
            }
        }
        let moves = self.order_moves(pos, candidates, ply);
        proof {
            lemma_same_moves(moves@, candidates@);
            assert(q_moves(n0) =~= moves@.to_set()) by {
                assert forall|m: Move| #[trigger] q_moves(n0).contains(m) <==> moves@.to_set().contains(m) by {
                    assert(moves@.to_set().contains(m) <==> moves@.contains(m));
                    assert(moves@.contains(m) <==> candidates@.contains(m));
                    if !in_check {
                        assert(candidates@.contains(m) <==> all_moves@.contains(m) && is_noisy(m));
                    }
                }
            }
            lemma_q_seq_fold(n0, (ply + 1) as nat, moves@);
            assert(moves@.take(0) =~= Seq::<Move>::empty());
            assert(all_moves@.contains(all_moves@[0]));
            assert(legal_set(n0).contains(all_moves@[0]));
        }
        let ghost cply = (ply + 1) as nat;
        let ghost v = qvalue(n0, ply as nat);
        let ghost best = q_seq(n0, cply, moves@);
        proof {
            assert(best == q_moves(n0).fold(q_floor(), q_step(n0, cply)));
            assert(v == (if !in_check && eval_at(n0) > best { eval_at(n0) } else { best }));
        }
        let mut i: usize = 0;
        #[verifier::loop_isolation(false)]
        while i < moves.len()
            invariant
                i <= moves.len(),
                ply < QUIESCENCE_PLY_CAP,
                cply == ply + 1,
                p0 == *old(pos),
                n0 == node_of(p0),
                p0.halfmove_clock + (QUIESCENCE_PLY_CAP - ply) < u32::MAX,
                forall|m: Move| #[trigger] moves@.contains(m) ==> legal(p0, m),
                -WINDOW_BOUND - ply <= alpha <= WINDOW_BOUND + ply,
                -WINDOW_BOUND - ply <= beta <= WINDOW_BOUND + ply,
                in_check == in_check_at(n0),
                best == q_seq(n0, cply, moves@),
                v == qvalue(n0, ply as nat),
                v == (if !in_check && eval_at(n0) > best { eval_at(n0) } else { best }),
                lo == (if !in_check && eval_at(n0) > alpha0 { eval_at(n0) } else { alpha0 }),
                !in_check ==> eval_at(n0) < beta,
                alpha == (if q_seq(n0, cply, moves@.take(i as int)) > lo {
                    q_seq(n0, cply, moves@.take(i as int))
                } else {
                    lo
                }),
                q_seq(n0, cply, moves@.take(i as int)) < beta,
                self.wf(),
                self.depth == old(self).depth,
                self.max_time == old(self).max_time,
                self.tt == old(self).tt,
                self.rep_history == old(self).rep_history,
                self.killers == old(self).killers,
                self.history == old(self).history,
                self.static_evals == old(self).static_evals,
                self.lmr_table == old(self).lmr_table,
                node_of(*pos) == n0,
                sound(*pos),
                pos.halfmove_clock == p0.halfmove_clock,
                pos.zobrist_keys == p0.zobrist_keys,
                pos.fullmove_count == p0.fullmove_count,
            decreases moves.len() - i,
        {
            let mv = moves[i];
            let ghost q0 = *pos;
            let ghost before = q_seq(n0, cply, moves@.take(i as int));
            proof {
                assert(moves@.contains(mv));
                assert(legal(q0, mv));
                lemma_pseudo_fits(q0, mv);
                assert(moves@.take(i as int + 1).drop_last() =~= moves@.take(i as int));
                assert(moves@.take(i as int + 1).last() == mv);
                lemma_q_seq_ge(n0, cply, moves@, i as int + 1);
            }
            if !in_check && see(pos, mv) < 0 {
                proof {
                    assert(q_seq(n0, cply, moves@.take(i as int + 1)) == q_step(n0, cply)(before, mv));
                }
                i = i + 1;
                continue;
            }
            let undo = pos.make_move(mv);
            let ghost q = *pos;
            proof {
                lemma_legal_keeps_sound(q0, mv, q, undo);
                lemma_node_made(q0, mv, q, undo);
            }
            let raw = self.quiescence(pos, ply + 1, -beta, -alpha, deadline);
            let ghost q1 = *pos;
            pos.undo_move(mv, undo);
            proof {
                let q2 = Position { fullmove_count: q.fullmove_count, ..q1 };
                let r2 = *pos;
                law_undo_restores(q0, mv, q2, undo, r2);
                assert(node_of(*pos) == n0);
                assert(pos.side_to_move == q0.side_to_move);
            }
            if raw == TIMEOUT {
                return TIMEOUT;
            }
            proof {
                let qc = qvalue(next_node(n0, mv), cply);
                assert(see_value(n0.v, n0.c, mv) == see_value(q0.view(), q0.side_to_move.index(), mv));
                assert(q_seq(n0, cply, moves@.take(i as int + 1)) == q_step(n0, cply)(before, mv));
                assert(q_step(n0, cply)(before, mv) == (if -qc > before { -qc } else { before }));
                assert(best >= q_seq(n0, cply, moves@.take(i as int + 1)));
            }
            let score = -raw;
            if score >= beta {
                proof {
                    let qc = qvalue(next_node(n0, mv), cply);
                    if -qc < beta {
                        assert(raw >= -alpha);
                        assert(alpha0 >= beta);
                    } else {
                        assert(v >= beta);
                    }
                }
                return beta;
            }
            if score > alpha {
                alpha = score;
            }
            i = i + 1;
        }
        proof {
            assert(moves@.take(moves.len() as int) =~= moves@);
        }
        alpha
    }
}

/// Passing the move in a sound position where the side to move is not in
/// check leaves a sound position.
proof fn lemma_null_sound(p: Position, q: Position)
    requires
        sound(p),
        !attacked(p.view(), king_square(p.view(), p.side_to_move.index()), 1 - p.side_to_move.index()),
        q.view() == p.view(),
        q.side_to_move == p.side_to_move.other(),
        q.en_passant is None,
        q.castling_rights == p.castling_rights,
    ensures
        sound(q),
{
    let v = p.view();
    let c = q.side_to_move.index();
    let k = choose|k: int| #[trigger] crate::movegen::king_on(v, c, k);
    crate::movegen::lemma_king_square(v, c, k);
}

impl Bot {
    /// Stores an entry, its score kept within the bound.
    fn store(&mut self, idx: usize, hash: u64, depth: u32, score: i32, flag: TTFlag, best_move: Option<Move>)
        requires
            old(self).wf(),
            idx < TT_SIZE,
        ensures
            final(self).wf(),
            final(self).depth == old(self).depth,
            final(self).max_time == old(self).max_time,
            final(self).tt@ == old(self).tt@.update(
                idx as int,
                TTEntry { hash, depth, score: clamp_score(score), flag, best_move },
            ),
            final(self).killers == old(self).killers,
            final(self).history == old(self).history,
            final(self).rep_history == old(self).rep_history,
            final(self).static_evals == old(self).static_evals,
            final(self).lmr_table == old(self).lmr_table,
    {
        let e = TTEntry { hash, depth, score: bounded(score), flag, best_move };
        self.tt.set(idx, e);
    }

    /// `mv` caused a cutoff at `ply` with `depth` left; when it is quiet, it
    /// becomes the first killer of the ply (the old first moving to second,
    /// unless it was `mv`), and its piece and target earn `depth` squared of
    /// history, saturating.
    fn record_cutoff(&mut self, pos: &Position, mv: Move, ply: usize, depth: u32)
        requires
            old(self).wf(),
            pos.wf(),
            mv.from < 64,
            mv.to < 64,
            ply < MAX_DEPTH,
            depth <= 46340,
        ensures
            final(self).wf(),
            final(self).depth == old(self).depth,
            final(self).max_time == old(self).max_time,
            final(self).tt == old(self).tt,
            final(self).rep_history == old(self).rep_history,
            final(self).static_evals == old(self).static_evals,
            final(self).lmr_table == old(self).lmr_table,
            mv.flag.is_quiet_flag() ==> (final(self).killers[ply as int][0], final(self).killers[ply as int][1])
                == killers_after(old(self).killers[ply as int], mv),
            mv.flag.is_quiet_flag() ==> final(self).history[cell_kind(pos.view().mailbox[mv.from as int])][mv.to as int]
                == raised(old(self).history[cell_kind(pos.view().mailbox[mv.from as int])][mv.to as int], depth * depth),
            forall|p: int| 0 <= p < 128 && (p != ply || !mv.flag.is_quiet_flag()) ==> #[trigger] final(self).killers[p]
                == old(self).killers[p],
            forall|k: int, t: int|
                0 <= k < 6 && 0 <= t < 64 && !(mv.flag.is_quiet_flag() && k == cell_kind(pos.view().mailbox[mv.from as int])
                    && t == mv.to) ==> #[trigger] final(self).history[k][t] == old(self).history[k][t],
    {
        let quiet = match mv.flag {
            MoveFlag::Quiet | MoveFlag::DoublePawnPush | MoveFlag::KingCastle | MoveFlag::QueenCastle => true,
            _ => false,
        };
        if quiet {
            let mut k = self.killers[ply];
            if !holds(k[0], &mv) {
                k[1] = k[0];
                k[0] = Some(mv);
            }
            self.killers[ply] = k;
            proof {
                assert(cell_ok(pos.view().mailbox[mv.from as int]));
            }
            let piece: usize = match pos.bitboards.mailbox[mv.from as usize] {
                Some((_, p)) => p as usize,
                None => 0,
            };
            proof {
                assert(depth * depth <= 46340 * 46340) by (nonlinear_arith)
                    requires
                        depth <= 46340,
                ;
            }
            let bonus = (depth * depth) as i32;
            let mut row = self.history[piece];
            let old = row[mv.to as usize];
            row[mv.to as usize] = if old > i32::MAX - bonus {
                i32::MAX
            } else {
                old + bonus
            };
            let ghost before = self.history;
            self.history[piece] = row;
            proof {
                assert forall|kk: int, s: int| 0 <= kk < 6 && 0 <= s < 64 implies 0 <= #[trigger] self.history[kk][s] by {
                    if kk != piece {
                        assert(self.history[kk] == before[kk]);
                    }
                }
            }
        }
    }
}

/// The table entry in the slot of position `p`'s hash.
pub open spec fn slot_entry(tt: Seq<TTEntry>, p: Position) -> TTEntry {
    tt[(zobrist_spec(p) % 0x100000) as int]
}

/// Whether entry `e` is about hash `h` and searched at least `depth`.
pub open spec fn entry_usable(e: TTEntry, h: u64, depth: u32) -> bool {
    e.hash == h && e.depth >= depth
}

/// The score a usable entry answers with in the window (`alpha`, `beta`):
/// an exact score; a lower bound at or above `beta`; an upper bound at or
/// below `alpha`.
pub open spec fn table_answer(e: TTEntry, h: u64, depth: u32, alpha: i32, beta: i32) -> Option<i32> {
    if entry_usable(e, h, depth) {
        match e.flag {
            TTFlag::Exact => Some(e.score),
            TTFlag::LowerBound => if e.score >= beta { Some(e.score) } else { None },
            TTFlag::UpperBound => if e.score <= alpha { Some(e.score) } else { None },
        }
    } else {
        None
    }
}

/// `alpha` raised to a usable lower bound above it.
pub open spec fn table_alpha(e: TTEntry, h: u64, depth: u32, alpha: i32) -> i32 {
    if entry_usable(e, h, depth) && e.flag == TTFlag::LowerBound && e.score > alpha {
        e.score
    } else {
        alpha
    }
}

/// `q` is `p` with the move passed: the same board, the other side to
/// move, no en passant square.
pub open spec fn passed(p: Position, q: Position) -> bool {
    &&& q.view() == p.view()
    &&& q.side_to_move == p.side_to_move.other()
    &&& q.en_passant is None
    &&& q.castling_rights == p.castling_rights
    &&& q.halfmove_clock == p.halfmove_clock
    &&& q.fullmove_count == p.fullmove_count
    &&& q.zobrist_keys == p.zobrist_keys
}

/// Whether the side to move at `p` has a piece besides pawns and its king.
pub open spec fn has_pieces(p: Position) -> bool {
    let v = p.view();
    let c = p.side_to_move.index();
    v.pieces[pidx(c, 1)] != 0 || v.pieces[pidx(c, 2)] != 0 || v.pieces[pidx(c, 3)] != 0 || v.pieces[pidx(c, 4)] != 0
}

/// Whether the search of `p` to `depth` tries passing the move first.
pub open spec fn null_tried(p: Position, depth: u32) -> bool {
    depth >= 3 && !in_check_at(node_of(p)) && has_pieces(p)
}

/// The depth of the search after passing the move at `depth`.
pub open spec fn null_depth(depth: u32) -> u32 {
    let r = 3 + depth / 4;
    if depth > r + 1 {
        (depth - (r + 1)) as u32
    } else {
        0
    }
}

/// The tables a search reads and writes: the transposition table, the
/// killer moves and the history scores.
pub type Tables = (Seq<TTEntry>, [[Option<Move>; 2]; 128], [[i32; 64]; 6]);

/// The best of `a` and the children's results `rs` negated, in turn.
pub open spec fn run_alpha(a: int, rs: Seq<int>) -> int
    decreases rs.len(),
{
    if rs.len() == 0 {
        a
    } else {
        let b = run_alpha(a, rs.drop_last());
        if -rs.last() > b {
            -rs.last()
        } else {
            b
        }
    }
}

/// The static evaluation a search stores for `p`: the mated score when in
/// check, else the evaluation.
pub open spec fn static_eval(p: Position) -> int {
    if in_check_at(node_of(p)) {
        -CHECKMATE_SCORE
    } else {
        evaluation(p.view(), p.side_to_move)
    }
}

/// Whether the evaluation `se` at `ply` improves on the one two plies
/// before (`evals` holding those of the plies before), not in check.
pub open spec fn improving_at(evals: Seq<i32>, ply: int, se: int, in_check: bool) -> bool {
    !in_check && ply >= 2 && evals[ply - 2] != -CHECKMATE_SCORE && se > evals[ply - 2]
}

/// The killers `k2` and history `h2` are `k1` and `h1` after a cutoff by
/// `mv` at `ply` with `depth` left on the board `v`: for a quiet move, it
/// becomes the first killer of the ply and its piece and target earn
/// `depth` squared of history; nothing else changes.
pub open spec fn recorded(
    k1: [[Option<Move>; 2]; 128],
    h1: [[i32; 64]; 6],
    v: BoardView,
    mv: Move,
    ply: int,
    depth: u32,
    k2: [[Option<Move>; 2]; 128],
    h2: [[i32; 64]; 6],
) -> bool {
    let quiet = mv.flag.is_quiet_flag();
    let piece = cell_kind(v.mailbox[mv.from as int]);
    &&& quiet ==> (k2[ply][0], k2[ply][1]) == killers_after(k1[ply], mv)
    &&& quiet ==> h2[piece][mv.to as int] == raised(h1[piece][mv.to as int], depth * depth)
    &&& forall|q: int| 0 <= q < 128 && (q != ply || !quiet) ==> #[trigger] k2[q] == k1[q]
    &&& forall|k: int, t: int|
        0 <= k < 6 && 0 <= t < 64 && !(quiet && k == piece && t == mv.to) ==> #[trigger] h2[k][t] == h1[k][t]
}

/// `s` lists the legal moves of `p` once each, by descending ordering
/// score with the killers `k` and history `h` at `ply`.
pub open spec fn sorted_moves(k: [[Option<Move>; 2]; 128], h: [[i32; 64]; 6], p: Position, ply: int, s: Seq<Move>) -> bool {
    &&& s.no_duplicates()
    &&& forall|m: Move| #[trigger] s.contains(m) <==> legal(p, m)
    &&& forall|a: int, b: int|
        0 <= a < b < s.len() ==> order_score(k, h, p.view(), p.side_to_move, s[a], ply) >= order_score(
            k,
            h,
            p.view(),
            p.side_to_move,
            s[b],
            ply,
        )
}

/// `f` is the order in which a search of `p` at `ply` tries its moves: the
/// legal moves by descending ordering score (with the killers `k` and
/// history `h`), the table's move for `p` (from entry `e` about hash `hs`)
/// swapped to the front when there is one among them.
pub open spec fn move_order(
    k: [[Option<Move>; 2]; 128],
    h: [[i32; 64]; 6],
    p: Position,
    ply: int,
    e: TTEntry,
    hs: u64,
    f: Seq<Move>,
) -> bool {
    exists|s: Seq<Move>, i: int|
        #![trigger sorted_moves(k, h, p, ply, s), s[i]]
        sorted_moves(k, h, p, ply, s) && (if e.hash == hs && e.best_move is Some && s.contains(e.best_move.unwrap()) {
            0 <= i < s.len() && s[i] == e.best_move.unwrap() && f == s.update(0, s[i]).update(i, s[0])
        } else {
            f == s
        })
}

/// Move `m` of `p`, searched with the tables `tt`, the line `path` and the
/// static evaluations `evals` before it to `dc` plies (less than `depth`) in
/// the window (`alpha`, `beta`), gave `r` and left the tables `tt2`.
pub open spec fn move_ok(
    tt: Tables,
    path: Seq<u64>,
    evals: Seq<i32>,
    lmr: Seq<[u32; 64]>,
    p: Position,
    m: Move,
    depth: u32,
    dc: u32,
    ply: int,
    alpha: int,
    beta: int,
    is_pv: bool,
    r: int,
    tt2: Tables,
) -> bool
    decreases depth, 0int, 0int,
{
    if dc >= depth {
        false
    } else {
        exists|q: Position, u: Undo| #![trigger made(p, m, q, u)] made(p, m, q, u) && searched(tt, path, evals, lmr, q, dc, ply + 1, alpha, beta, is_pv, r, tt2)
    }
}

/// Passing the move at `p`, searched as `move_ok` says of a move.
pub open spec fn pass_ok(
    tt: Tables,
    path: Seq<u64>,
    evals: Seq<i32>,
    lmr: Seq<[u32; 64]>,
    p: Position,
    depth: u32,
    dc: u32,
    ply: int,
    alpha: int,
    beta: int,
    r: int,
    tt2: Tables,
) -> bool
    decreases depth, 0int, 0int,
{
    if dc >= depth {
        false
    } else {
        exists|q: Position| #![trigger passed(p, q)] passed(p, q) && searched(tt, path, evals, lmr, q, dc, ply + 1, alpha, beta, false, r, tt2)
    }
}

/// Whether the `k`-th move `m` of a search of `p` to `depth` is searched
/// shallower: a quiet move from the fourth on, at depth 3 or more, neither
/// side in check.
pub open spec fn reducible(p: Position, m: Move, depth: u32, k: int) -> bool {
    &&& k >= 3
    &&& depth >= 3
    &&& m.flag.is_quiet_flag()
    &&& !in_check_at(node_of(p))
    &&& !in_check_at(next_node(node_of(p), m))
}

/// The depth the `k`-th move `m` is first searched to with the history
/// `h`: `depth - 1` less its late-move reduction where it is reducible.
pub open spec fn first_depth(
    lmr: Seq<[u32; 64]>,
    h: [[i32; 64]; 6],
    p: Position,
    m: Move,
    depth: u32,
    k: int,
    is_pv: bool,
    improving: bool,
) -> int {
    let red = if reducible(p, m, depth, k) {
        reduction_of(lmr, h, next_node(node_of(p), m).v, m, depth, k, is_pv, improving)
    } else {
        0
    };
    if depth - 1 > red {
        depth - 1 - red
    } else {
        0
    }
}

/// The `k`-th move `m` of `p` searched from the tables `t0` with the running
/// `alpha` `ai`: the first in the full window; a later one first in the
/// null window to `first_depth` (result `z`, tables `u`), again to the
/// full depth when that was shallower and beat `ai` (result `w`, tables
/// `v`), and in the full window when that landed strictly inside it; `r`
/// is the result kept and `t` the tables left.
pub open spec fn step_ok(
    t0: Tables,
    line: Seq<u64>,
    evals: Seq<i32>,
    lmr: Seq<[u32; 64]>,
    p: Position,
    m: Move,
    depth: u32,
    ply: int,
    beta: int,
    ai: int,
    k: int,
    is_pv: bool,
    improving: bool,
    z: int,
    u: Tables,
    w: int,
    v: Tables,
    r: int,
    t: Tables,
) -> bool
    decreases depth, 0int, 1int,
{
    let d1 = (depth - 1) as u32;
    let d = first_depth(lmr, t0.2, p, m, depth, k, is_pv, improving) as u32;
    if k == 0 {
        move_ok(t0, line, evals, lmr, p, m, depth, d1, ply, -beta, -ai, is_pv, r, t)
    } else {
        &&& move_ok(t0, line, evals, lmr, p, m, depth, d, ply, -ai - 1, -ai, false, z, u)
        &&& if d < d1 && -z > ai {
            move_ok(u, line, evals, lmr, p, m, depth, d1, ply, -ai - 1, -ai, false, w, v)
        } else {
            w == z && v == u
        }
        &&& if ai < -w < beta {
            move_ok(v, line, evals, lmr, p, m, depth, d1, ply, -beta, -ai, true, r, t)
        } else {
            r == w && t == v
        }
    }
}

/// The moves `ms` of `p` were searched in turn from the tables `tt`, each
/// once and as `step_ok` says, with the results `rs` and the tables `ts`
/// between them (`zs`, `us`, `ws`, `vs` those of the null-window
/// searches); none but the last reached `beta`.
pub open spec fn trail_ok(
    tt: Tables,
    path: Seq<u64>,
    evals: Seq<i32>,
    lmr: Seq<[u32; 64]>,
    p: Position,
    depth: u32,
    ply: int,
    beta: int,
    a: int,
    is_pv: bool,
    improving: bool,
    ms: Seq<Move>,
    rs: Seq<int>,
    ts: Seq<Tables>,
    zs: Seq<int>,
    us: Seq<Tables>,
    ws: Seq<int>,
    vs: Seq<Tables>,
) -> bool
    decreases depth, 1int, ms.len(),
{
    if ms.len() == 0 {
        &&& rs.len() == 0 && zs.len() == 0 && us.len() == 0 && ws.len() == 0 && vs.len() == 0
        &&& ts.len() == 1 && ts[0] == tt
    } else {
        let k = ms.len() - 1;
        let ai = run_alpha(a, rs.drop_last());
        let line = path.push(zobrist_spec(p));
        let m = ms.last();
        &&& rs.len() == ms.len() && zs.len() == ms.len()
        &&& us.len() == ms.len() && ws.len() == ms.len() && vs.len() == ms.len()
        &&& ts.len() == ms.len() + 1
        &&& trail_ok(
            tt,
            path,
            evals,
            lmr,
            p,
            depth,
            ply,
            beta,
            a,
            is_pv,
            improving,
            ms.drop_last(),
            rs.drop_last(),
            ts.drop_last(),
            zs.drop_last(),
            us.drop_last(),
            ws.drop_last(),
            vs.drop_last(),
        )
        &&& legal(p, m)
        &&& !ms.drop_last().contains(m)
        &&& (k > 0 ==> -rs[k - 1] < beta)
        &&& step_ok(
            ts[k],
            line,
            evals,
            lmr,
            p,
            m,
            depth,
            ply,
            beta,
            ai,
            k,
            is_pv,
            improving,
            zs.last(),
            us.last(),
            ws.last(),
            vs.last(),
            rs.last(),
            ts.last(),
        )
    }
}

/// A trail extended by one more move searched as `step_ok` says.
proof fn lemma_trail_push(
    tt: Tables,
    path: Seq<u64>,
    evals: Seq<i32>,
    lmr: Seq<[u32; 64]>,
    p: Position,
    depth: u32,
    ply: int,
    beta: int,
    a: int,
    is_pv: bool,
    improving: bool,
    ms: Seq<Move>,
    rs: Seq<int>,
    ts: Seq<Tables>,
    zs: Seq<int>,
    us: Seq<Tables>,
    ws: Seq<int>,
    vs: Seq<Tables>,
    m: Move,
    z: int,
    u: Tables,
    w: int,
    v: Tables,
    r: int,
    t: Tables,
)
    requires
        trail_ok(tt, path, evals, lmr, p, depth, ply, beta, a, is_pv, improving, ms, rs, ts, zs, us, ws, vs),
        rs.len() == ms.len(),
        ts.len() == ms.len() + 1,
        legal(p, m),
        !ms.contains(m),
        ms.len() > 0 ==> -rs.last() < beta,
        step_ok(
            ts.last(),
            path.push(zobrist_spec(p)),
            evals,
            lmr,
            p,
            m,
            depth,
            ply,
            beta,
            run_alpha(a, rs),
            ms.len() as int,
            is_pv,
            improving,
            z,
            u,
            w,
            v,
            r,
            t,
        ),
    ensures
        trail_ok(
            tt,
            path,
            evals,
            lmr,
            p,
            depth,
            ply,
            beta,
            a,
            is_pv,
            improving,
            ms.push(m),
            rs.push(r),
            ts.push(t),
            zs.push(z),
            us.push(u),
            ws.push(w),
            vs.push(v),
        ),
{
    assert(ms.push(m).drop_last() =~= ms);
    assert(rs.push(r).drop_last() =~= rs);
    assert(ts.push(t).drop_last() =~= ts);
    assert(zs.push(z).drop_last() =~= zs);
    assert(us.push(u).drop_last() =~= us);
    assert(ws.push(w).drop_last() =~= ws);
    assert(vs.push(v).drop_last() =~= vs);
    if ms.len() > 0 {
        assert(rs.push(r)[ms.len() - 1] == rs.last());
    }
    assert(ts.push(t)[ms.len() as int] == ts.last());
    assert(trail_ok(tt, path, evals, lmr, p, depth, ply, beta, a, is_pv, improving, ms, rs, ts, zs, us, ws, vs) ==> (
    zs.len() == ms.len() && us.len() == ms.len() && ws.len() == ms.len() && vs.len() == ms.len())) by {
        if ms.len() == 0 {
        }
    }
}

/// How a search of `p` at `ply` ends, from the tables `tn` left after
/// passing the move (result `zn`), if it was tried: a pass that still
/// reached `beta` gives `beta`; without a legal move, the mate or stalemate
/// score; a cutoff by the last move tried gives `beta`, records it as
/// `recorded` says and stores it as a lower bound with that move; else
/// every legal move was tried, the running `alpha` is the result, stored
/// as exact when it rose above `a` and as an upper bound when not.
pub open spec fn closes(
    p: Position,
    depth: u32,
    ply: int,
    beta: int,
    a: int,
    zn: int,
    tn: Tables,
    f: Seq<Move>,
    ms: Seq<Move>,
    rs: Seq<int>,
    ts: Seq<Tables>,
    zs: Seq<int>,
    us: Seq<Tables>,
    ws: Seq<int>,
    vs: Seq<Tables>,
    r: int,
    tt2: Tables,
) -> bool {
    let h = zobrist_spec(p);
    let slot = (h % 0x100000) as int;
    let n = node_of(p);
    if null_tried(p, depth) && -zn >= beta {
        r == beta && tt2 == tn
    } else if no_legal_move(p) {
        r == (if in_check_at(n) { -CHECKMATE_SCORE } else { 0 }) && tt2 == tn
    } else {
        &&& ms.len() > 0
        &&& ms == f.take(ms.len() as int)
        &&& zs.len() == ms.len() && us.len() == ms.len()
        &&& ws.len() == ms.len() && vs.len() == ms.len()
        &&& if -rs.last() >= beta {
            &&& r == beta
            &&& recorded(ts.last().1, ts.last().2, p.view(), ms.last(), ply, depth, tt2.1, tt2.2)
            &&& tt2.0 == ts.last().0.update(
                slot,
                TTEntry {
                    hash: h,
                    depth,
                    score: clamp_score(beta as i32),
                    flag: TTFlag::LowerBound,
                    best_move: Some(ms.last()),
                },
            )
        } else {
            &&& forall|m: Move| #[trigger] legal(p, m) ==> ms.contains(m)
            &&& r == run_alpha(a, rs)
            &&& tt2.1 == ts.last().1
            &&& tt2.2 == ts.last().2
            &&& tt2.0 == ts.last().0.update(slot, tt2.0[slot])
            &&& tt2.0[slot].hash == h
            &&& tt2.0[slot].depth == depth
            &&& tt2.0[slot].score == clamp_score(r as i32)
            &&& tt2.0[slot].flag == (if r > a { TTFlag::Exact } else { TTFlag::UpperBound })
        }
    }
}

/// What the search of `p` to `depth` at `ply` in the window (`alpha`,
/// `beta`), with the tables `tt`, the hashes `path` and the static
/// evaluations `evals` of the line before it and the reduction table
/// `lmr`, gives (`r`) and leaves in the tables (`tt2`): past the plies the
/// tables cover, the quiescence search; `repetition_score` of the
/// evaluation for a position repeated an even number of plies back; a
/// usable entry's answer; at depth 0 the quiescence search in the window
/// raised by a usable lower bound; else, where it is tried, the search
/// after passing the move in the null window at `beta`, then the moves in
/// `move_order` as `closes` and `trail_ok` say.
pub open spec fn searched(
    tt: Tables,
    path: Seq<u64>,
    evals: Seq<i32>,
    lmr: Seq<[u32; 64]>,
    p: Position,
    depth: u32,
    ply: int,
    alpha: int,
    beta: int,
    is_pv: bool,
    r: int,
    tt2: Tables,
) -> bool
    decreases depth, 2int, 0int,
{
    let h = zobrist_spec(p);
    let e = slot_entry(tt.0, p);
    let n = node_of(p);
    let answer = table_answer(e, h, depth, alpha as i32, beta as i32);
    let a = table_alpha(e, h, depth, alpha as i32) as int;
    let line = path.push(h);
    let se = static_eval(p);
    let ev1 = evals.push(se as i32);
    let improving = improving_at(evals, ply, se, in_check_at(n));
    if ply >= MAX_DEPTH - 1 {
        window_ok(qvalue(n, ply as nat), r, alpha, beta) && tt2 == tt
    } else if repeated(path, ply, h) {
        r == repetition_score(evaluation(p.view(), p.side_to_move)) && tt2 == tt
    } else if answer is Some {
        r == answer.unwrap() && tt2 == tt
    } else if depth == 0 {
        window_ok(qvalue(n, ply as nat), r, a, beta) && tt2 == tt
    } else {
        exists|
            zn: int,
            tn: Tables,
            f: Seq<Move>,
            ms: Seq<Move>,
            rs: Seq<int>,
            ts: Seq<Tables>,
            zs: Seq<int>,
            us: Seq<Tables>,
            ws: Seq<int>,
            vs: Seq<Tables>,
        |
            #[trigger] closes(p, depth, ply, beta, a, zn, tn, f, ms, rs, ts, zs, us, ws, vs, r, tt2) && (if null_tried(p, depth) {
                pass_ok(tt, line, ev1, lmr, p, depth, null_depth(depth), ply, -beta, -beta + 1, zn, tn)
            } else {
                tn == tt
            }) && (!(null_tried(p, depth) && -zn >= beta) && !no_legal_move(p) ==> {
                &&& move_order(tn.1, tn.2, p, ply, e, h, f)
                &&& trail_ok(tn, path, ev1, lmr, p, depth, ply, beta, a, is_pv, improving, ms, rs, ts, zs, us, ws, vs)
            })
    }
}

/// The ordering score of a move at the root on cleared tables (no
/// killers, no history): `score_spec` with those tables.
pub open spec fn opening_score(v: BoardView, side: Color, mv: Move) -> int {
    if mv.flag == MoveFlag::Capture || mv.flag == MoveFlag::PromotionCapture {
        let s = see_value(v, side.index(), mv);
        if s >= 0 {
            10_000 + s + promo_value(mv.promotion)
        } else {
            s + promo_value(mv.promotion)
        }
    } else if mv.flag == MoveFlag::EnPassant {
        10_000
    } else if mv.flag == MoveFlag::Promotion {
        9_500 + promo_value(mv.promotion)
    } else {
        -(if pawn_guards(v, side.other().index(), mv.to as int) {
            piece_value(cell_kind(v.mailbox[mv.from as int]))
        } else {
            0
        })
    }
}

/// Whether `m` is a legal move of `p` that comes first in the ordering on
/// cleared tables: no legal move scores higher.
pub open spec fn ordered_first(p: Position, m: Move) -> bool {
    &&& legal(p, m)
    &&& forall|x: Move| #[trigger] legal(p, x) ==> opening_score(p.view(), p.side_to_move, m) >= opening_score(p.view(), p.side_to_move, x)
}

/// One root search of `p` to depth `d` in the window (`alpha`, `beta`):
/// the moves `ms` in turn from the tables `tt`, each searched to `d - 1`
/// in the window that `beta` and the best so far make (with the line
/// `line` and the static evaluations `evals` before the root), with the
/// results `rs` and the tables `ts` between them, none reaching `beta`.
pub open spec fn root_trail(
    tt: Tables,
    line: Seq<u64>,
    evals: Seq<i32>,
    lmr: Seq<[u32; 64]>,
    p: Position,
    d: u32,
    alpha: int,
    beta: int,
    ms: Seq<Move>,
    rs: Seq<int>,
    ts: Seq<Tables>,
) -> bool
    decreases ms.len(),
{
    if ms.len() == 0 {
        rs.len() == 0 && ts.len() == 1 && ts[0] == tt
    } else {
        let k = ms.len() - 1;
        &&& rs.len() == ms.len()
        &&& ts.len() == ms.len() + 1
        &&& root_trail(tt, line, evals, lmr, p, d, alpha, beta, ms.drop_last(), rs.drop_last(), ts.drop_last())
        &&& legal(p, ms.last())
        &&& !ms.drop_last().contains(ms.last())
        &&& -rs.last() < beta
        &&& move_ok(
            ts[k],
            line,
            evals,
            lmr,
            p,
            ms.last(),
            d,
            (d - 1) as u32,
            0,
            -beta,
            -run_alpha(alpha, rs.drop_last()),
            true,
            rs.last(),
            ts.last(),
        )
    }
}

/// The move a root search picks from its results: the first whose score
/// rose above the best before it (from `alpha`).
pub open spec fn root_pick(alpha: int, ms: Seq<Move>, rs: Seq<int>) -> Option<Move>
    decreases ms.len(),
{
    if ms.len() == 0 || rs.len() == 0 {
        None
    } else {
        let b = root_pick(alpha, ms.drop_last(), rs.drop_last());
        if -rs.last() > run_alpha(alpha, rs.drop_last()) {
            Some(ms.last())
        } else {
            b
        }
    }
}

/// A root search of `p` to depth `d` that tried every legal move, ended
/// strictly inside its window (`alpha`, `beta`), and picked `m`.
pub open spec fn iteration_picks(
    tt: Tables,
    line: Seq<u64>,
    evals: Seq<i32>,
    lmr: Seq<[u32; 64]>,
    p: Position,
    d: u32,
    alpha: int,
    beta: int,
    ms: Seq<Move>,
    rs: Seq<int>,
    ts: Seq<Tables>,
    m: Move,
) -> bool {
    &&& d >= 1
    &&& root_trail(tt, line, evals, lmr, p, d, alpha, beta, ms, rs, ts)
    &&& forall|x: Move| #[trigger] legal(p, x) ==> ms.contains(x)
    &&& alpha < run_alpha(alpha, rs) < beta
    &&& root_pick(alpha, ms, rs) == Some(m)
}

impl Bot {
    /// The alpha-beta search, fail-hard in the window (`alpha`, `beta`):
    /// past the plies the tables cover it hands over to the quiescence
    /// search; a position repeated two plies apart scores 50 for the side
    /// behind (and -50 for the side ahead, 0 when level); a table entry deep
    /// enough answers when its bound does; at depth 0 the quiescence search
    /// answers; else, not in check and with pieces besides pawns, a null move
    /// searched shallower that still fails high cuts off; the moves are
    /// ordered (the table's move first), quiet late moves searched with
    /// reductions and a null window, and re-searched when they beat `alpha`;
    /// a cutoff records a killer and history and stores a lower bound, else
    /// the result is stored as exact or an upper bound. Returns `TIMEOUT`
    /// once the deadline passes. The position is left as it was.
    #[verifier::rlimit(100)]
    #[verifier::spinoff_prover]
    pub fn negamax(
        &mut self,
        pos: &mut Position,
        depth: u32,
        ply: usize,
        alpha: i32,
        beta: i32,
        is_pv: bool,
        deadline: Instant,
    ) -> (r: i32)
        requires
            old(self).wf(),
            sound(*old(pos)),
            ply < MAX_DEPTH,
            depth <= 46340,
            old(pos).halfmove_clock + depth + QUIESCENCE_PLY_CAP < u32::MAX,
            -WINDOW_BOUND - ply <= alpha <= WINDOW_BOUND + ply,
            -WINDOW_BOUND - ply <= beta <= WINDOW_BOUND + ply,
        ensures
            final(self).wf(),
            final(self).depth == old(self).depth,
            final(self).max_time == old(self).max_time,
            r == TIMEOUT || -WINDOW_BOUND - ply <= r <= WINDOW_BOUND + ply,
            node_of(*final(pos)) == node_of(*old(pos)),
            sound(*final(pos)),
            final(pos).halfmove_clock == old(pos).halfmove_clock,
            final(pos).zobrist_keys == old(pos).zobrist_keys,
            final(pos).fullmove_count == old(pos).fullmove_count,
            r != TIMEOUT ==> searched(
                old(self).tables(),
                old(self).rep_history@.take(ply as int),
                old(self).static_evals@.take(ply as int),
                old(self).lmr_table@,
                *old(pos),
                depth,
                ply as int,
                alpha as int,
                beta as int,
                is_pv,
                r as int,
                final(self).tables(),
            ),
            forall|j: int| 0 <= j < ply ==> #[trigger] final(self).rep_history[j] == old(self).rep_history[j],
            forall|j: int| 0 <= j < ply ==> #[trigger] final(self).static_evals[j] == old(self).static_evals[j],
            final(self).lmr_table@ == old(self).lmr_table@,
        decreases depth,
    {
        let ghost p0 = *pos;
        let ghost n0 = node_of(p0);
        let ghost alpha_in = alpha;
        let ghost st0 = self.tables();
        let ghost ev0 = self.static_evals@.take(ply as int);
        let ghost lmr0 = self.lmr_table@;
        if time_is_up(&deadline) {
            return TIMEOUT;
        }
        if ply >= MAX_DEPTH - 1 {
            return self.quiescence(pos, ply, alpha, beta, deadline);
        }
        let hash = pos.zobrist_hash();
        let ghost reps0 = self.rep_history@;
        self.rep_history[ply] = hash;
        let mut k: usize = 0;
        #[verifier::loop_isolation(false)]
        while k < ply
            invariant
                ply < MAX_DEPTH,
                k <= ply + 1,
                k % 2 == 0,
                forall|j: int| 0 <= j < k && j < ply && j % 2 == 0 ==> #[trigger] reps0[j] != hash,
            decreases ply + 1 - k,
        {
            if self.rep_history[k] == hash {
                proof {
                    assert(reps0[k as int] == hash);
                    assert(reps0.take(ply as int)[k as int] == hash);
                }
                let eval = evaluate(pos);
                return if eval > 0 {
                    -50
                } else if eval < 0 {
                    50
                } else {
                    0
                };
            }
            k = k + 2;
        }
        let ghost path0 = reps0.take(ply as int);
        let ghost path1 = path0.push(hash);
        proof {
            assert(!repeated(reps0, ply as int, hash));
            assert forall|j: int| 0 <= j < ply implies #[trigger] path0[j] == reps0[j] by {}
            assert(!repeated(path0, ply as int, hash));
        }
        let tt_idx = tt_index(hash);
        let tt_entry = self.tt[tt_idx];
        proof {
            assert(-SCORE_BOUND <= self.tt@[tt_idx as int].score <= SCORE_BOUND);
        }
        let mut tt_move: Option<Move> = None;
        let mut a = alpha;
        if tt_entry.hash == hash {
            tt_move = tt_entry.best_move;
            if tt_entry.depth >= depth {
                let score = tt_entry.score;
                match tt_entry.flag {
                    TTFlag::Exact => {
                        return score;
                    },
                    TTFlag::LowerBound => {
                        if score >= beta {
                            return score;
                        }
                        if score > a {
                            a = score;
                        }
                    },
                    TTFlag::UpperBound => {
                        if score <= a {
                            return score;
                        }
                    },
                }
            }
        }
        let ghost a0 = a;
        proof {
            assert(tt_entry == slot_entry(old(self).tt@, p0));
            assert(old(self).tables().0 == old(self).tt@);
            assert(table_answer(tt_entry, hash, depth, alpha_in, beta) is None);
            assert(a0 == table_alpha(tt_entry, hash, depth, alpha_in));
        }
        let in_check = pos.is_in_check(pos.side_to_move);
        if depth == 0 {
            return self.quiescence(pos, ply, a, beta, deadline);
        }
        if in_check {
            self.static_evals[ply] = -CHECKMATE_SCORE;
        } else {
            self.static_evals[ply] = evaluate(pos);
        }
        let improving = !in_check && ply >= 2 && self.static_evals[ply - 2] != -CHECKMATE_SCORE
            && self.static_evals[ply] > self.static_evals[ply - 2];
        let ghost se = static_eval(p0);
        let ghost ev1 = ev0.push(se as i32);
        proof {
            assert(in_check == in_check_at(n0));
            assert(self.static_evals[ply as int] as int == se);
            assert(self.static_evals@.take(ply as int + 1) =~= ev1);
            if ply >= 2 {
                assert(ev0[ply - 2] == self.static_evals[ply - 2]);
            }
            assert(improving == improving_at(ev0, ply as int, se, in_check_at(n0)));
        }
        let ghost tt0 = self.tables();
        let ghost mut zn: int = 0;
        let ghost mut tn: Tables = tt0;
        let stm = pos.side_to_move.idx();
        let has_pieces = pos.bitboards.pieces[stm][1] != 0 || pos.bitboards.pieces[stm][2] != 0
            || pos.bitboards.pieces[stm][3] != 0 || pos.bitboards.pieces[stm][4] != 0;
        if depth >= 3 && !in_check && has_pieces {
            let r = 3 + depth / 4;
            let null_depth = if depth > r + 1 {
                depth - (r + 1)
            } else {
                0
            };
            let ghost before_null = *pos;
            let null_undo = pos.make_null_move();
            proof {
                lemma_null_sound(before_null, *pos);
            }
            proof {
                assert(self.rep_history@.take(ply as int + 1) =~= path1);
                assert(self.static_evals@.take(ply as int + 1) =~= ev1);
                assert(passed(p0, *pos));
            }
            let null_raw = self.negamax(pos, null_depth, ply + 1, -beta, -beta + 1, false, deadline);
            proof {
                zn = null_raw as int;
                tn = self.tables();
                if null_raw != TIMEOUT {
                    assert(pass_ok(tt0, path1, ev1, lmr0, p0, depth, null_depth, ply as int, -beta, -beta + 1, zn, tn));
                }
            }
            pos.undo_null_move(null_undo);
            proof {
                assert(node_of(*pos) == n0);
                assert(pos.side_to_move == p0.side_to_move);
            }
            if null_raw == TIMEOUT {
                return TIMEOUT;
            }
            if -null_raw >= beta {
                proof {
                    assert(null_tried(p0, depth));
                    assert(closes(p0, depth, ply as int, beta as int, a0 as int, zn, tn, Seq::empty(), Seq::empty(), Seq::empty(), Seq::empty(), Seq::empty(), Seq::empty(), Seq::empty(), Seq::empty(), beta as int, self.tables()));
                }
                return beta;
            }
        }
        proof {
            assert(null_tried(p0, depth) == (depth >= 3 && !in_check && has_pieces));
        }
        let ghost pm = *pos;
        let legal_moves = pos.get_legal_moves();
        if legal_moves.len() == 0 {
            proof {
                assert forall|m: Move| !#[trigger] legal(p0, m) by {
                    assert(!legal_moves@.contains(m));
                    assert(legal(pm, m) == legal(p0, m));
                }
            }
            let check = pos.is_in_check(pos.side_to_move);
            let res = if check {
                -CHECKMATE_SCORE
            } else {
                0
            };
            proof {
                assert(closes(p0, depth, ply as int, beta as int, a0 as int, zn, tn, Seq::empty(), Seq::empty(), Seq::empty(), Seq::empty(), Seq::empty(), Seq::empty(), Seq::empty(), Seq::empty(), res as int, self.tables()));
            }
            return res;
        }
        proof {
            assert forall|i: int| 0 <= i < legal_moves@.len() implies (#[trigger] legal_moves@[i]).from < 64 && legal_moves@[i].to < 64 by {
                assert(legal_moves@.contains(legal_moves@[i]));
                lemma_pseudo_fits(p0, legal_moves@[i]);
            }
        }
        let mut moves = self.order_moves(pos, legal_moves, ply);
        let ghost sorted0 = moves@;
        let ghost mut i_sw: int = 0;
        proof {
            lemma_same_moves(moves@, legal_moves@);
            assert forall|m: Move| #[trigger] legal(p0, m) implies moves@.contains(m) by {
                assert(legal(pm, m) == legal(p0, m));
                assert(legal_moves@.contains(m));
            }
            assert forall|m: Move| #[trigger] moves@.contains(m) implies legal(p0, m) by {
                assert(legal_moves@.contains(m));
                assert(legal(pm, m) == legal(p0, m));
            }
            assert(self.killers == tn.1 && self.history == tn.2);
            assert(sorted_moves(tn.1, tn.2, p0, ply as int, sorted0));
        }
        if let Some(tm) = tt_move {
            if let Some(idx) = index_of(&moves, &tm) {
                let ghost before = moves@;
                swap_moves(&mut moves, 0, idx);
                proof {
                    i_sw = idx as int;
                    lemma_same_moves(moves@, before);
                }
            }
        }
        proof {
            let e = slot_entry(tt0.0, p0);
            assert(e == tt_entry);
            if e.hash == hash && e.best_move is Some && sorted0.contains(e.best_move.unwrap()) {
                assert(0 <= i_sw < sorted0.len() && sorted0[i_sw] == e.best_move.unwrap() && moves@ == sorted0.update(0, sorted0[i_sw]).update(i_sw, sorted0[0]));
            } else {
                assert(moves@ == sorted0);
            }
            let wit = sorted0[i_sw];
            assert(sorted_moves(tn.1, tn.2, p0, ply as int, sorted0));
            assert(move_order(tn.1, tn.2, p0, ply as int, e, hash, moves@));
        }
        proof {
            assert(legal_moves@.contains(legal_moves@[0]));
            assert(legal(pm, legal_moves@[0]) == legal(p0, legal_moves@[0]));
            assert(!no_legal_move(p0));
        }
        let alpha_at_entry = a;
        let mut best_move_found: Option<Move> = None;
        let ghost mut rs: Seq<int> = Seq::empty();
        let ghost mut ts: Seq<Tables> = seq![tn];
        let ghost mut zs: Seq<int> = Seq::empty();
        let ghost mut us: Seq<Tables> = Seq::empty();
        let ghost mut ws: Seq<int> = Seq::empty();
        let ghost mut vs: Seq<Tables> = Seq::empty();
        let mut i: usize = 0;
        while i < moves.len()
            invariant
                i <= moves.len(),
                ply < MAX_DEPTH - 1,
                old(self).tables() == st0,
                st0 == tt0,
                old(self).static_evals@.take(ply as int) == ev0,
                old(self).lmr_table@ == lmr0,
                self.lmr_table@ == lmr0,
                self.static_evals@.take(ply as int + 1) == ev1,
                forall|j: int| 0 <= j < ply ==> #[trigger] self.static_evals[j] == old(self).static_evals[j],
                ev1 == ev0.push(se as i32),
                se == static_eval(p0),
                improving == improving_at(ev0, ply as int, se, in_check_at(n0)),
                move_order(tn.1, tn.2, p0, ply as int, slot_entry(tt0.0, p0), hash, moves@),
                old(self).rep_history@.take(ply as int) == path0,
                reps0 == old(self).rep_history@,
                hash == zobrist_spec(p0),
                tt_idx == hash % 0x100000,
                !repeated(path0, ply as int, hash),
                table_answer(slot_entry(tt0.0, p0), hash, depth, alpha, beta) is None,
                a0 == table_alpha(slot_entry(tt0.0, p0), hash, depth, alpha),
                !no_legal_move(p0),
                in_check == in_check_at(n0),
                null_tried(p0, depth) ==> pass_ok(tt0, path1, ev1, lmr0, p0, depth, null_depth(depth), ply as int, -beta, -beta + 1, zn, tn),
                !null_tried(p0, depth) ==> tn == tt0,
                !(null_tried(p0, depth) && -zn >= beta),
                alpha_at_entry == a0,
                a >= a0,
                a < beta || a == a0,
                rs.len() == i,
                ts.len() == i + 1,
                ts.last() == self.tables(),
                a as int == run_alpha(a0 as int, rs),
                forall|j: int| 0 <= j < i ==> -#[trigger] rs[j] < beta,
                trail_ok(tn, path0, ev1, lmr0, p0, depth, ply as int, beta as int, a0 as int, is_pv, improving, moves@.take(i as int), rs, ts, zs, us, ws, vs),
                path1 == path0.push(zobrist_spec(p0)),
                forall|j: int| 0 <= j < ply ==> #[trigger] self.rep_history[j] == reps0[j],
                self.rep_history[ply as int] == hash,
                moves@.no_duplicates(),
                forall|m: Move| #[trigger] legal(p0, m) ==> moves@.contains(m),
                1 <= depth <= 46340,
                ply < MAX_DEPTH - 1,
                p0 == *old(pos),
                n0 == node_of(p0),
                tt_idx < TT_SIZE,
                p0.halfmove_clock + depth + QUIESCENCE_PLY_CAP < u32::MAX,
                forall|m: Move| #[trigger] moves@.contains(m) ==> legal(p0, m),
                -WINDOW_BOUND - ply <= a <= WINDOW_BOUND + ply,
                -WINDOW_BOUND - ply <= beta <= WINDOW_BOUND + ply,
                self.wf(),
                self.depth == old(self).depth,
                self.max_time == old(self).max_time,
                node_of(*pos) == n0,
                sound(*pos),
                pos.halfmove_clock == p0.halfmove_clock,
                pos.zobrist_keys == p0.zobrist_keys,
                pos.fullmove_count == p0.fullmove_count,
            decreases moves.len() - i,
        {
            let mv = moves[i];
            let ghost q0 = *pos;
            proof {
                assert(moves@.contains(mv));
                assert(legal(q0, mv));
                lemma_pseudo_fits(q0, mv);
            }
            let undo = pos.make_move(mv);
            let ghost q = *pos;
            proof {
                lemma_legal_keeps_sound(q0, mv, q, undo);
                crate::perft::lemma_node_made(q0, mv, q, undo);
            }
            let is_quiet = match mv.flag {
                MoveFlag::Quiet | MoveFlag::DoublePawnPush | MoveFlag::KingCastle | MoveFlag::QueenCastle => true,
                _ => false,
            };
            let gives_check = pos.is_in_check(pos.side_to_move);
            let reduction: u32 = if i >= 3 && depth >= 3 && is_quiet && !in_check && !gives_check {
                self.late_move_reduction(pos, mv, depth, i, is_pv, improving)
            } else {
                0
            };
            let ghost tt_before = self.tables();
            let ghost mut zg: int = 0;
            let ghost mut ug: Tables = tt_before;
            let ghost mut wg: int = 0;
            let ghost mut vg: Tables = tt_before;
            let ghost fd = first_depth(lmr0, tt_before.2, p0, mv, depth, i as int, is_pv, improving);
            proof {
                assert(self.rep_history@.take(ply as int + 1) =~= path1);
                assert(made(p0, mv, q, undo));
                assert(node_of(q) == next_node(n0, mv));
                assert(is_quiet == mv.flag.is_quiet_flag());
                assert(gives_check == in_check_at(next_node(node_of(p0), mv)));
                assert((i >= 3 && depth >= 3 && is_quiet && !in_check && !gives_check) == reducible(p0, mv, depth, i as int));
                assert(reduction as int == (if reducible(p0, mv, depth, i as int) {
                    reduction_of(lmr0, tt_before.2, next_node(node_of(p0), mv).v, mv, depth, i as int, is_pv, improving)
                } else {
                    0
                }));
            }
            let raw = if i == 0 {
                let full = self.negamax(pos, depth - 1, ply + 1, -beta, -a, is_pv, deadline);
                proof {
                    if full != TIMEOUT {
                        assert(move_ok(tt_before, path1, ev1, lmr0, p0, mv, depth, (depth - 1) as u32, ply as int, -beta, -(a as int), is_pv, full as int, self.tables()));
                    }
                }
                full
            } else {
                let reduced_depth = if depth - 1 > reduction {
                    depth - 1 - reduction
                } else {
                    0
                };
                let mut zw = self.negamax(pos, reduced_depth, ply + 1, -a - 1, -a, false, deadline);
                proof {
                    assert(reduced_depth as int == fd);
                    zg = zw as int;
                    ug = self.tables();
                    wg = zg;
                    vg = ug;
                    if zw != TIMEOUT {
                        assert(move_ok(tt_before, path1, ev1, lmr0, p0, mv, depth, reduced_depth, ply as int, -(a as int) - 1, -(a as int), false, zg, ug));
                    }
                    assert(self.static_evals@.take(ply as int + 1) =~= ev1);
                    assert(self.rep_history@.take(ply as int + 1) =~= path1);
                    assert(made(p0, mv, *pos, undo));
                    assert((reduction > 0) == (reduced_depth < depth - 1));
                }
                if zw == TIMEOUT {
                    let ghost q1 = *pos;
                    pos.undo_move(mv, undo);
                    proof {
                        lemma_back(q0, mv, q, q1, undo, *pos);
                    }
                    return TIMEOUT;
                }
                if reduction > 0 && -zw > a {
                    zw = self.negamax(pos, depth - 1, ply + 1, -a - 1, -a, false, deadline);
                    proof {
                        wg = zw as int;
                        vg = self.tables();
                        if zw != TIMEOUT {
                            assert(move_ok(ug, path1, ev1, lmr0, p0, mv, depth, (depth - 1) as u32, ply as int, -(a as int) - 1, -(a as int), false, wg, vg));
                        }
                        assert(self.static_evals@.take(ply as int + 1) =~= ev1);
                        assert(self.rep_history@.take(ply as int + 1) =~= path1);
                        assert(made(p0, mv, *pos, undo));
                    }
                    if zw == TIMEOUT {
                        let ghost q1 = *pos;
                        pos.undo_move(mv, undo);
                        proof {
                            lemma_back(q0, mv, q, q1, undo, *pos);
                        }
                        return TIMEOUT;
                    }
                }
                if -zw > a && -zw < beta {
                    let full = self.negamax(pos, depth - 1, ply + 1, -beta, -a, true, deadline);
                    proof {
                        if full != TIMEOUT {
                            assert(move_ok(vg, path1, ev1, lmr0, p0, mv, depth, (depth - 1) as u32, ply as int, -beta, -(a as int), true, full as int, self.tables()));
                        }
                    }
                    full
                } else {
                    zw
                }
            };
            let ghost q1 = *pos;
            pos.undo_move(mv, undo);
            proof {
                lemma_back(q0, mv, q, q1, undo, *pos);
            }
            if raw == TIMEOUT {
                return TIMEOUT;
            }
            proof {
                let ms1 = moves@.take(i as int + 1);
                assert(moves@.take(i as int).push(mv) =~= ms1);
                assert(!moves@.take(i as int).contains(mv)) by {
                    if moves@.take(i as int).contains(mv) {
                        let k = choose|k: int| 0 <= k < i && moves@.take(i as int)[k] == mv;
                        assert(moves@[k] == moves@[i as int]);
                    }
                }
                assert(step_ok(ts.last(), path1, ev1, lmr0, p0, mv, depth, ply as int, beta as int, a as int, i as int, is_pv, improving, zg, ug, wg, vg, raw as int, self.tables()));
                lemma_trail_push(tn, path0, ev1, lmr0, p0, depth, ply as int, beta as int, a0 as int, is_pv, improving, moves@.take(i as int), rs, ts, zs, us, ws, vs, mv, zg, ug, wg, vg, raw as int, self.tables());
                assert(rs.push(raw as int).drop_last() =~= rs);
                rs = rs.push(raw as int);
                ts = ts.push(self.tables());
                zs = zs.push(zg);
                us = us.push(ug);
                ws = ws.push(wg);
                vs = vs.push(vg);
            }
            let score = -raw;
            if score >= beta {
                if is_quiet {
                    self.record_cutoff(pos, mv, ply, depth);
                }
                self.store(tt_idx, hash, depth, beta, TTFlag::LowerBound, Some(mv));
                proof {
                    let ms = moves@.take(i as int + 1);
                    assert(pos.view() == p0.view());
                    assert(closes(p0, depth, ply as int, beta as int, a0 as int, zn, tn, moves@, ms, rs, ts, zs, us, ws, vs, beta as int, self.tables()));
                }
                return beta;
            }
            if score > a {
                a = score;
                best_move_found = Some(mv);
            }
            i = i + 1;
        }
        let flag = if a > alpha_at_entry {
            TTFlag::Exact
        } else {
            TTFlag::UpperBound
        };
        self.store(tt_idx, hash, depth, a, flag, best_move_found);
        proof {
            let ms = moves@.take(moves.len() as int);
            assert(ms =~= moves@);
            assert(closes(p0, depth, ply as int, beta as int, a0 as int, zn, tn, moves@, ms, rs, ts, zs, us, ws, vs, a as int, self.tables()));
        }
        a
    }

    /// The late-move reduction that `late_move_reduction` computes, on the
    /// board `v` after the move is made.
    pub open spec fn reduction_spec(&self, v: BoardView, mv: Move, depth: u32, i: int, is_pv: bool, improving: bool) -> int {
        reduction_of(self.lmr_table@, self.history, v, mv, depth, i, is_pv, improving)
    }

    /// The late-move reduction of a quiet move: the table's entry for the
    /// depth and move number (both capped at 63), one less in a principal
    /// line and one less when the evaluation improves, less the history
    /// score of the piece on the move's origin (read after the move is made)
    /// and its target over 4096, capped at 2, kept between 0 and the depth
    /// less one.
    #[verifier::rlimit(40)]
    fn late_move_reduction(&self, pos: &Position, mv: Move, depth: u32, i: usize, is_pv: bool, improving: bool) -> (r: u32)
        requires
            self.wf(),
            pos.wf(),
            mv.from < 64,
            mv.to < 64,
            depth >= 1,
        ensures
            r < depth,
            r == self.reduction_spec(pos.view(), mv, depth, i as int, is_pv, improving),
    {
        let d: usize = if depth < 63 {
            depth as usize
        } else {
            63
        };
        let m: usize = if i < 63 {
            i
        } else {
            63
        };
        let mut r = self.lmr_table[d][m] as i32;
        if is_pv {
            r = r - 1;
        }
        if improving {
            r = r - 1;
        }
        proof {
            assert(cell_ok(pos.view().mailbox[mv.from as int]));
        }
        let piece: usize = match pos.bitboards.mailbox[mv.from as usize] {
            Some((_, p)) => p as usize,
            None => 0,
        };
        let h = self.history[piece][mv.to as usize] / 4096;
        let adj = if h < -2 {
            -2
        } else if h > 2 {
            2
        } else {
            h
        };
        r = r - adj;
        let top = depth as i64 - 1;
        let clamped = if (r as i64) < 0 {
            0
        } else if (r as i64) > top {
            top
        } else {
            r as i64
        };
        clamped as u32
    }
}

/// The most aspiration re-searches at one depth.
pub const MAX_ASPIRATION_TRIES: u32 = 20;

/// The deepest iteration searched.
pub const MAX_ITERATION: u32 = 46340;

impl Bot {
    /// The move to play: the history and killers cleared, the root moves
    /// ordered, then depth 1, 2, ... up to the bot's depth until the
    /// deadline (its time limit, half a second if none, from now), the best
    /// move so far tried first and the killers cleared at each depth. From
    /// depth 3 each search starts in a window of 50 around the previous
    /// score, widened (doubling the step) on the side it fails, up to the
    /// mate bounds. Plays the best move of the deepest completed search,
    /// else the first move in order; `None` without a legal move.
    /// Deepening stops once the deadline passes; at depth 46340 (where the
    /// history bonus would overflow); after 20 failed windows at one depth
    /// (where the window's step would overflow); and where the fifty-move
    /// clock could run past its range. (The opening book is consulted by
    /// the caller.)
    #[verifier::rlimit(50)]
    #[verifier::spinoff_prover]
    pub fn best_move(&mut self, gs: &mut GameState) -> (r: Option<Move>)
        requires
            old(self).wf(),
            sound(old(gs).position),
            old(gs).position.halfmove_clock < u32::MAX,
        ensures
            final(self).wf(),
            final(self).depth == old(self).depth,
            final(self).max_time == old(self).max_time,
            r is None <==> no_legal_move(old(gs).position),
            r matches Some(m) ==> legal(old(gs).position, m),
            r matches Some(m) ==> ordered_first(old(gs).position, m) || exists|
                tt1: Tables,
                d: u32,
                al: int,
                be: int,
                ms: Seq<Move>,
                rs: Seq<int>,
                ts: Seq<Tables>,
            |
                d <= old(self).depth && #[trigger] iteration_picks(
                    tt1,
                    old(self).rep_history@.take(1),
                    old(self).static_evals@.take(1),
                    old(self).lmr_table@,
                    old(gs).position,
                    d,
                    al,
                    be,
                    ms,
                    rs,
                    ts,
                    m,
                ),
            node_of(final(gs).position) == node_of(old(gs).position),
            final(gs).position.halfmove_clock == old(gs).position.halfmove_clock,
            final(gs).position.zobrist_keys == old(gs).position.zobrist_keys,
            final(gs).position.fullmove_count == old(gs).position.fullmove_count,
            final(gs).history == old(gs).history,
            final(gs).repetition_table == old(gs).repetition_table,
            final(gs).result == old(gs).result,
            final(gs).line == old(gs).line,
    {
        self.history = zero_history();
        let no_killers: [Option<Move>; 2] = [None, None];
        self.killers = [no_killers; 128];
        let ghost line = old(self).rep_history@.take(1);
        let ghost evals0 = old(self).static_evals@.take(1);
        let ghost lmr0 = old(self).lmr_table@;
        let ghost p0 = gs.position;
        let ghost n0 = node_of(p0);
        let legal_moves = gs.position.get_legal_moves();
        if legal_moves.len() == 0 {
            proof {
                assert forall|m: Move| !#[trigger] legal(p0, m) by {
                    assert(!legal_moves@.contains(m));
                }
            }
            return None;
        }
        proof {
            assert forall|i: int| 0 <= i < legal_moves@.len() implies (#[trigger] legal_moves@[i]).from < 64 && legal_moves@[i].to < 64 by {
                assert(legal_moves@.contains(legal_moves@[i]));
                lemma_pseudo_fits(p0, legal_moves@[i]);
            }
        }
        let mut moves = self.order_moves(&gs.position, legal_moves, 0);
        let ghost first = moves@[0];
        proof {
            lemma_same_moves(moves@, legal_moves@);
            assert(moves@.contains(moves@[0]));
            assert(self.killers[0] == no_killers);
            assert forall|x: Move| #[trigger] legal(p0, x) implies opening_score(p0.view(), p0.side_to_move, first) >= opening_score(p0.view(), p0.side_to_move, x) by {
                assert(legal_moves@.contains(x));
                assert(moves@.contains(x));
                let b = choose|b: int| 0 <= b < moves@.len() && moves@[b] == x;
                assert forall|y: Move| #[trigger] moves@.contains(y) implies self.score_spec(p0.view(), p0.side_to_move, y, 0) == opening_score(p0.view(), p0.side_to_move, y) by {
                    lemma_pseudo_fits(p0, y);
                    assert(cell_ok(p0.view().mailbox[y.from as int]));
                }
                assert(moves@.contains(first));
                if b > 0 {
                    assert(self.score_spec(p0.view(), p0.side_to_move, moves@[0], 0) >= self.score_spec(p0.view(), p0.side_to_move, moves@[b], 0));
                }
            }
            assert(ordered_first(p0, first));
        }
        let budget = match self.max_time {
            Some(d) => d,
            None => millis(500),
        };
        let deadline = deadline_in(budget);
        let mut best_move = Some(moves[0]);
        let mut prev_score: i32 = 0;
        let mut depth: u32 = 1;
        while depth <= self.depth
            invariant_except_break
                -CHECKMATE_SCORE - 1 - 50 * depth <= prev_score <= CHECKMATE_SCORE + 1 + 50 * depth,
            invariant
                forall|m: Move| #[trigger] moves@.contains(m) <==> legal(p0, m),
                n0 == node_of(p0),
                moves@.len() > 0,
                best_move matches Some(m) && legal(p0, m),
                best_move matches Some(m) && (ordered_first(p0, m) || exists|
                    tt1: Tables,
                    d: u32,
                    al: int,
                    be: int,
                    ms: Seq<Move>,
                    rs: Seq<int>,
                    ts: Seq<Tables>,
                |
                    d <= old(self).depth && #[trigger] iteration_picks(tt1, line, evals0, lmr0, p0, d, al, be, ms, rs, ts, m)),
                evals0 == old(self).static_evals@.take(1),
                lmr0 == old(self).lmr_table@,
                self.static_evals[0] == old(self).static_evals[0],
                self.lmr_table@ == lmr0,
                line == old(self).rep_history@.take(1),
                self.rep_history[0] == old(self).rep_history[0],
                p0 == old(gs).position,
                moves@.no_duplicates(),
                1 <= depth,
                depth <= MAX_ITERATION + 1,
                self.wf(),
                self.depth == old(self).depth,
                self.max_time == old(self).max_time,
                node_of(gs.position) == n0,
                sound(gs.position),
                gs.position.halfmove_clock == p0.halfmove_clock,
                gs.position.zobrist_keys == p0.zobrist_keys,
                gs.position.fullmove_count == p0.fullmove_count,
                gs.history == old(gs).history,
                gs.repetition_table == old(gs).repetition_table,
                gs.result == old(gs).result,
                gs.line == old(gs).line,
            decreases self.depth - depth,
        {
            if time_is_up(&deadline) {
                break;
            }
            if depth > MAX_ITERATION || gs.position.halfmove_clock as u64 + depth as u64 + 256 >= 0xffff_ffff {
                break;
            }
            if let Some(bm) = best_move {
                if let Some(idx) = index_of(&moves, &bm) {
                    let ghost before = moves@;
                    swap_moves(&mut moves, 0, idx);
                    proof {
                        lemma_same_moves(moves@, before);
                    }
                }
            }
            self.killers = [[None; 2]; 128];
            let mut alpha: i32 = if depth < 3 {
                -CHECKMATE_SCORE - 1
            } else {
                prev_score - 50
            };
            let mut beta: i32 = if depth < 3 {
                CHECKMATE_SCORE + 1
            } else {
                prev_score + 50
            };
            let mut delta: i32 = 50;
            let mut tries: u32 = 0;
            let mut timed_out = false;
            let mut outcome: Option<(Option<Move>, i32)> = None;
            let ghost mut w_tt: Tables = self.tables();
            let ghost mut w_al: int = 0;
            let ghost mut w_be: int = 0;
            let ghost mut w_ms: Seq<Move> = moves@;
            let ghost mut w_rs: Seq<int> = Seq::empty();
            let ghost mut w_ts: Seq<Tables> = Seq::empty();
            while tries < MAX_ASPIRATION_TRIES
                invariant_except_break
                    !timed_out,
                    outcome is None,
                invariant
                    forall|m: Move| #[trigger] moves@.contains(m) <==> legal(p0, m),
                    n0 == node_of(p0),
                    moves@.len() > 0,
                    1 <= depth <= MAX_ITERATION,
                    p0.halfmove_clock + depth + 256 < u32::MAX,
                    -CHECKMATE_SCORE - 1 - 50 * (depth + 1) <= alpha <= beta,
                    beta <= CHECKMATE_SCORE + 1 + 50 * (depth + 1),
                    tries <= MAX_ASPIRATION_TRIES,
                    delta == 50 * pow2_u32(tries),
                    outcome matches Some((bm, sc)) ==> (bm matches Some(m) ==> legal(p0, m)) && alpha < sc < beta,
                    outcome matches Some((bm, sc)) ==> (bm matches Some(m) ==> iteration_picks(w_tt, line, evals0, lmr0, p0, depth, w_al, w_be, w_ms, w_rs, w_ts, m)),
                    self.static_evals[0] == old(self).static_evals[0],
                    self.lmr_table@ == lmr0,
                    evals0 == old(self).static_evals@.take(1),
                    line == old(self).rep_history@.take(1),
                    self.rep_history[0] == old(self).rep_history[0],
                    moves@.no_duplicates(),
                    self.wf(),
                    self.depth == old(self).depth,
                    self.max_time == old(self).max_time,
                    node_of(gs.position) == n0,
                    sound(gs.position),
                    gs.position.halfmove_clock == p0.halfmove_clock,
                    gs.position.zobrist_keys == p0.zobrist_keys,
                    gs.position.fullmove_count == p0.fullmove_count,
                    gs.history == old(gs).history,
                    gs.repetition_table == old(gs).repetition_table,
                    gs.result == old(gs).result,
                    gs.line == old(gs).line,
                decreases MAX_ASPIRATION_TRIES - tries,
            {
                proof {
                    lemma_pow2_bound((tries + 1) as u32);
                    assert(pow2_u32((tries + 1) as u32) == 2 * pow2_u32(tries));
                }
                let mut best_this: Option<Move> = None;
                let mut score_this: i32 = alpha;
                let ghost tt_try = self.tables();
                let ghost mut rs: Seq<int> = Seq::empty();
                let ghost mut ts: Seq<Tables> = seq![tt_try];
                let mut failed_high = false;
                let mut i: usize = 0;
                while i < moves.len()
                    invariant_except_break
                        !timed_out,
                        !failed_high,
                        rs.len() == i,
                        ts.len() == i + 1,
                        ts.last() == self.tables(),
                        score_this as int == run_alpha(alpha as int, rs),
                        best_this == root_pick(alpha as int, moves@.take(i as int), rs),
                        root_trail(tt_try, line, evals0, lmr0, p0, depth, alpha as int, beta as int, moves@.take(i as int), rs, ts),
                    invariant
                        i <= moves.len(),
                        forall|m: Move| #[trigger] moves@.contains(m) <==> legal(p0, m),
                        n0 == node_of(p0),
                        moves@.len() > 0,
                        1 <= depth <= MAX_ITERATION,
                        p0.halfmove_clock + depth + 256 < u32::MAX,
                        alpha <= score_this,
                        score_this < beta || score_this == alpha,
                        -CHECKMATE_SCORE - 1 - 50 * (depth + 1) <= alpha,
                        beta <= CHECKMATE_SCORE + 1 + 50 * (depth + 1),
                        alpha <= beta,
                        best_this matches Some(m) ==> legal(p0, m) && alpha < score_this,
                        best_this is None ==> score_this == alpha,
                        self.static_evals[0] == old(self).static_evals[0],
                        self.lmr_table@ == lmr0,
                        evals0 == old(self).static_evals@.take(1),
                        line == old(self).rep_history@.take(1),
                        self.rep_history[0] == old(self).rep_history[0],
                        moves@.no_duplicates(),
                        self.wf(),
                        self.depth == old(self).depth,
                        self.max_time == old(self).max_time,
                        node_of(gs.position) == n0,
                        sound(gs.position),
                        gs.position.halfmove_clock == p0.halfmove_clock,
                        gs.position.zobrist_keys == p0.zobrist_keys,
                        gs.position.fullmove_count == p0.fullmove_count,
                        gs.history == old(gs).history,
                        gs.repetition_table == old(gs).repetition_table,
                        gs.result == old(gs).result,
                        gs.line == old(gs).line,
                    ensures
                        !timed_out && !failed_high ==> {
                            &&& i == moves.len()
                            &&& rs.len() == i
                            &&& ts.len() == i + 1
                            &&& ts.last() == self.tables()
                            &&& score_this as int == run_alpha(alpha as int, rs)
                            &&& best_this == root_pick(alpha as int, moves@.take(i as int), rs)
                            &&& root_trail(tt_try, line, evals0, lmr0, p0, depth, alpha as int, beta as int, moves@.take(i as int), rs, ts)
                        },
                    decreases moves.len() - i,
                {
                    let mv = moves[i];
                    let ghost q0 = gs.position;
                    proof {
                        assert(moves@.contains(mv));
                        assert(legal(q0, mv));
                        lemma_pseudo_fits(q0, mv);
                    }
                    let undo = gs.position.make_move(mv);
                    let ghost q = gs.position;
                    proof {
                        lemma_legal_keeps_sound(q0, mv, q, undo);
                    }
                    let ghost tt_before = self.tables();
                    proof {
                        assert(self.rep_history@.take(1) =~= line);
                        assert(self.static_evals@.take(1) =~= evals0);
                        assert(made(p0, mv, q, undo));
                    }
                    let raw = self.negamax(&mut gs.position, depth - 1, 1, -beta, -score_this, true, deadline);
                    proof {
                        if raw != TIMEOUT {
                            assert(move_ok(tt_before, line, evals0, lmr0, p0, mv, depth, (depth - 1) as u32, 0, -beta, -(score_this as int), true, raw as int, self.tables()));
                        }
                    }
                    let ghost q1 = gs.position;
                    gs.position.undo_move(mv, undo);
                    proof {
                        lemma_back(q0, mv, q, q1, undo, gs.position);
                    }
                    if raw == TIMEOUT {
                        timed_out = true;
                        break;
                    }
                    let score = -raw;
                    if score >= beta {
                        if let Some(idx) = index_of(&moves, &mv) {
                            let ghost before = moves@;
                            swap_moves(&mut moves, 0, idx);
                            proof {
                                lemma_same_moves(moves@, before);
                            }
                        }
                        failed_high = true;
                        break;
                    }
                    proof {
                        let ms1 = moves@.take(i as int + 1);
                        assert(ms1.drop_last() =~= moves@.take(i as int));
                        assert(ms1.last() == mv);
                        assert(!moves@.take(i as int).contains(mv)) by {
                            if moves@.take(i as int).contains(mv) {
                                let k = choose|k: int| 0 <= k < i && moves@.take(i as int)[k] == mv;
                                assert(moves@[k] == moves@[i as int]);
                            }
                        }
                        let rs0 = rs;
                        let ts0 = ts;
                        rs = rs.push(raw as int);
                        ts = ts.push(self.tables());
                        assert(rs.drop_last() =~= rs0);
                        assert(ts.drop_last() =~= ts0);
                        assert(root_trail(tt_try, line, evals0, lmr0, p0, depth, alpha as int, beta as int, ms1, rs, ts));
                    }
                    if score > score_this {
                        score_this = score;
                        best_this = Some(mv);
                    }
                    i = i + 1;
                }
                if timed_out {
                    break;
                }
                if failed_high {
                    beta = if beta + delta < CHECKMATE_SCORE + 1 {
                        beta + delta
                    } else {
                        CHECKMATE_SCORE + 1
                    };
                    if beta < alpha {
                        beta = alpha;
                    }
                    delta = delta * 2;
                    tries = tries + 1;
                    continue;
                }
                if score_this <= alpha {
                    alpha = if alpha - delta > -CHECKMATE_SCORE - 1 {
                        alpha - delta
                    } else {
                        -CHECKMATE_SCORE - 1
                    };
                    if alpha > beta {
                        alpha = beta;
                    }
                    delta = delta * 2;
                    tries = tries + 1;
                    continue;
                }
                proof {
                    w_tt = tt_try;
                    w_al = alpha as int;
                    w_be = beta as int;
                    w_ms = moves@.take(moves.len() as int);
                    w_rs = rs;
                    w_ts = ts;
                    assert(moves@.take(moves.len() as int) =~= moves@);
                    assert forall|x: Move| #[trigger] legal(p0, x) implies w_ms.contains(x) by {
                        assert(moves@.contains(x));
                    }
                    if best_this is Some {
                        assert(iteration_picks(w_tt, line, evals0, lmr0, p0, depth, w_al, w_be, w_ms, w_rs, w_ts, best_this.unwrap()));
                    }
                }
                outcome = Some((best_this, score_this));
                break;
            }
            if timed_out {
                break;
            }
            match outcome {
                Some((completed_move, completed_score)) => {
                    if let Some(mv) = completed_move {
                        proof {
                            assert(iteration_picks(w_tt, line, evals0, lmr0, p0, depth, w_al, w_be, w_ms, w_rs, w_ts, mv));
                        }
                        best_move = Some(mv);
                        prev_score = completed_score;
                    }
                },
                None => {
                    break;
                },
            }
            if depth == self.depth {
                break;
            }
            depth = depth + 1;
        }
        best_move
    }
}

/// 2 to the power `n`, for the aspiration steps.
pub open spec fn pow2_u32(n: u32) -> int
    decreases n,
{
    if n == 0 {
        1
    } else {
        2 * pow2_u32((n - 1) as u32)
    }
}

/// Powers of two grow with the exponent, and the twentieth is 1048576.
pub proof fn lemma_pow2_bound(n: u32)
    requires
        n <= MAX_ASPIRATION_TRIES,
    ensures
        1 <= pow2_u32(n) <= 1048576,
    decreases MAX_ASPIRATION_TRIES - n,
{
    if n < MAX_ASPIRATION_TRIES {
        lemma_pow2_bound((n + 1) as u32);
        assert(pow2_u32((n + 1) as u32) == 2 * pow2_u32(n));
    } else {
        assert(pow2_u32(20) == 1048576) by {
            reveal_with_fuel(pow2_u32, 21);
        }
    }
}

} // verus!

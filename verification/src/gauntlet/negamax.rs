//! A fixed-depth negamax searcher on material alone, without pruning: its
//! score is the minimax value of the material balance.
use vstd::prelude::*;
use vstd::set::fold::{lemma_fold_insert, lemma_fold_empty, is_fun_commutative};
use crate::types::{Color, Piece, MoveFlag, Move, lemma_color_index, lemma_piece_index};
use crate::position::{Position, attacked, king_square, law_undo_restores};
use crate::movegen::{Node, node_of, legal, sound, lemma_pseudo_fits, lemma_legal_keeps_sound};
use crate::perft::{next_node, legal_set};
use crate::eval::{material, for_side, evaluate_material};
use crate::game::{GameState, no_legal_move};
use crate::search::CHECKMATE_SCORE;

verus! {

broadcast use lemma_color_index;

/// The material balance of a node, from its side to move's view.
pub open spec fn material_eval(n: Node) -> int {
    for_side(material(n.v), Color::from_index(n.c))
}

/// Whether the side to move at `n` is in check.
pub open spec fn in_check_at(n: Node) -> bool {
    attacked(n.v, king_square(n.v, n.c), 1 - n.c)
}

/// The larger of the best so far and a child's value seen from the parent.
pub open spec fn better_child(n: Node, depth: nat) -> spec_fn(int, Move) -> int
    decreases depth, 2int,
{
    |acc: int, m: Move|
        {
            let v = -minimax(next_node(n, m), depth);
            if v > acc {
                v
            } else {
                acc
            }
        }
}

/// The minimax value of the material balance to `depth` plies: at a leaf
/// the balance; without a legal move, mated (`-CHECKMATE_SCORE`) or
/// stalemated (0); else the best over the legal moves of the child's value
/// negated.
pub open spec fn minimax(n: Node, depth: nat) -> int
    decreases depth, 1int,
{
    if depth == 0 {
        material_eval(n)
    } else if legal_set(n) =~= Set::empty() {
        if in_check_at(n) {
            -CHECKMATE_SCORE
        } else {
            0
        }
    } else {
        legal_set(n).fold(-CHECKMATE_SCORE - 1, better_child(n, (depth - 1) as nat))
    }
}

/// A number for each flag.
pub open spec fn flag_code(f: MoveFlag) -> int {
    match f {
        MoveFlag::Quiet => 0,
        MoveFlag::Capture => 1,
        MoveFlag::DoublePawnPush => 2,
        MoveFlag::KingCastle => 3,
        MoveFlag::QueenCastle => 4,
        MoveFlag::EnPassant => 5,
        MoveFlag::Promotion => 6,
        MoveFlag::PromotionCapture => 7,
    }
}

/// The flag numbered `i` by `flag_code`.
pub open spec fn flag_of(i: int) -> MoveFlag {
    if i == 0 {
        MoveFlag::Quiet
    } else if i == 1 {
        MoveFlag::Capture
    } else if i == 2 {
        MoveFlag::DoublePawnPush
    } else if i == 3 {
        MoveFlag::KingCastle
    } else if i == 4 {
        MoveFlag::QueenCastle
    } else if i == 5 {
        MoveFlag::EnPassant
    } else if i == 6 {
        MoveFlag::Promotion
    } else {
        MoveFlag::PromotionCapture
    }
}

/// A number for each promotion: 0 for none, else one more than the piece's.
pub open spec fn promo_code(p: Option<Piece>) -> int {
    match p {
        None => 0,
        Some(k) => 1 + k.index(),
    }
}

/// A number for each move, below `256 * 256 * 8 * 7`.
pub open spec fn move_code(m: Move) -> int {
    ((m.from as int * 256 + m.to as int) * 8 + flag_code(m.flag)) * 7 + promo_code(m.promotion)
}

/// The move numbered `i` by `move_code`.
pub open spec fn move_of(i: int) -> Move {
    let pr = i % 7;
    let r1 = i / 7;
    Move {
        from: (r1 / 8 / 256) as u8,
        to: ((r1 / 8) % 256) as u8,
        flag: flag_of(r1 % 8),
        promotion: if pr == 0 { None } else { Some(Piece::from_index(pr - 1)) },
    }
}

/// Every move, listed by its number.
pub open spec fn every_move() -> Seq<Move> {
    Seq::new(256 * 256 * 8 * 7, |i: int| move_of(i))
}

/// Every move stands in `every_move`.
proof fn lemma_every_move(m: Move)
    ensures
        every_move().contains(m),
{
    let c = move_code(m);
    let pc = promo_code(m.promotion);
    let fc = flag_code(m.flag);
    let ft = m.from as int * 256 + m.to as int;
    let r1 = ft * 8 + fc;
    assert(0 <= pc < 7);
    assert(0 <= fc < 8);
    vstd::arithmetic::div_mod::lemma_fundamental_div_mod_converse(c, 7, r1, pc);
    vstd::arithmetic::div_mod::lemma_fundamental_div_mod_converse(r1, 8, ft, fc);
    vstd::arithmetic::div_mod::lemma_fundamental_div_mod_converse(ft, 256, m.from as int, m.to as int);
    assert(0 <= c < 256 * 256 * 8 * 7) by (nonlinear_arith)
        requires
            c == ((m.from as int * 256 + m.to as int) * 8 + fc) * 7 + pc,
            0 <= m.from < 256,
            0 <= m.to < 256,
            0 <= fc < 8,
            0 <= pc < 7,
    ;
    assert(move_of(c) == m);
    assert(every_move()[c] == m);
}

/// Every set of moves is finite.
pub proof fn lemma_moves_finite(s: Set<Move>)
    ensures
        s.finite(),
{
    let all = every_move().to_set();
    vstd::seq_lib::seq_to_set_is_finite(every_move());
    assert(s.subset_of(all)) by {
        assert forall|m: Move| s.contains(m) implies all.contains(m) by {
            lemma_every_move(m);
        }
    }
    vstd::set_lib::lemma_set_subset_finite(all, s);
}

/// The best child value folded over `s` from `init` lies between `lo` and
/// `hi` when `init` and every child value in `s` do, and is at least each
/// child value in `s`.
proof fn lemma_fold_best(n: Node, depth: nat, s: Set<Move>, init: int, lo: int, hi: int)
    requires
        s.finite(),
        lo <= init <= hi,
        forall|m: Move| #[trigger] s.contains(m) ==> lo <= -minimax(next_node(n, m), depth) <= hi,
    ensures
        lo <= s.fold(init, better_child(n, depth)) <= hi,
        forall|m: Move| #[trigger] s.contains(m) ==> s.fold(init, better_child(n, depth)) >= -minimax(next_node(n, m), depth),
    decreases s.len(),
{
    let f = better_child(n, depth);
    assert(is_fun_commutative(f)) by {
        assert forall|a1: Move, a2: Move, b: int| #[trigger] f(f(b, a2), a1) == f(f(b, a1), a2) by {}
    }
    if s.len() == 0 {
        assert(s =~= Set::<Move>::empty());
        lemma_fold_empty(init, f);
    } else {
        let m = s.choose();
        assert(s.contains(m));
        let t = s.remove(m);
        lemma_fold_best(n, depth, t, init, lo, hi);
        assert(t.insert(m) =~= s);
        lemma_fold_insert(t, init, f, m);
        assert forall|x: Move| #[trigger] s.contains(x) implies s.fold(init, f) >= -minimax(next_node(n, x), depth) by {
            if x != m {
                assert(t.contains(x));
            }
        }
    }
}

/// The minimax value lies between the mated and the mating score.
pub proof fn lemma_minimax_bounds(n: Node, depth: nat)
    ensures
        -CHECKMATE_SCORE <= minimax(n, depth) <= CHECKMATE_SCORE,
    decreases depth,
{
    if depth == 0 {
        crate::eval::lemma_material_bound(n.v);
    } else if legal_set(n) =~= Set::empty() {
    } else {
        let d1 = (depth - 1) as nat;
        let s = legal_set(n);
        lemma_moves_finite(s);
        assert forall|m: Move| #[trigger] s.contains(m) implies -CHECKMATE_SCORE <= -minimax(next_node(n, m), d1) <= CHECKMATE_SCORE by {
            lemma_minimax_bounds(next_node(n, m), d1);
        }
        lemma_fold_best(n, d1, s, -CHECKMATE_SCORE - 1, -CHECKMATE_SCORE - 1, CHECKMATE_SCORE as int);
        let m = choose|m: Move| s.contains(m);
        assert(s.contains(m)) by {
            if !(exists|m: Move| s.contains(m)) {
                assert(s =~= Set::<Move>::empty());
            }
        }
    }
}

/// The best of the children's values over the moves `s`, in order.
pub open spec fn seq_best(n: Node, depth: nat, s: Seq<Move>) -> int
    decreases s.len(),
{
    if s.len() == 0 {
        -CHECKMATE_SCORE - 1
    } else {
        better_child(n, depth)(seq_best(n, depth, s.drop_last()), s.last())
    }
}

/// Over a list without repeats, the best in order is the fold over its set.
pub proof fn lemma_seq_best_fold(n: Node, depth: nat, s: Seq<Move>)
    requires
        s.no_duplicates(),
    ensures
        s.to_set().finite(),
        seq_best(n, depth, s) == s.to_set().fold(-CHECKMATE_SCORE - 1, better_child(n, depth)),
    decreases s.len(),
{
    let f = better_child(n, depth);
    assert(is_fun_commutative(f)) by {
        assert forall|a1: Move, a2: Move, b: int| #[trigger] f(f(b, a2), a1) == f(f(b, a1), a2) by {}
    }
    if s.len() == 0 {
        assert(s.to_set() =~= Set::<Move>::empty());
        lemma_fold_empty(-CHECKMATE_SCORE - 1, f);
    } else {
        let t = s.drop_last();
        let m = s.last();
        assert(t.no_duplicates()) by {
            assert forall|i: int, j: int| 0 <= i < t.len() && 0 <= j < t.len() && i != j implies t[i] != t[j] by {
                assert(t[i] == s[i] && t[j] == s[j]);
            }
        }
        lemma_seq_best_fold(n, depth, t);
        assert(!t.contains(m)) by {
            if t.contains(m) {
                let k = choose|k: int| 0 <= k < t.len() && t[k] == m;
                assert(s[k] == s[s.len() - 1]);
            }
        }
        assert(s.to_set() =~= t.to_set().insert(m)) by {
            assert forall|x: Move| #[trigger] s.contains(x) <==> t.contains(x) || x == m by {
                if s.contains(x) && x != m {
                    let k = choose|k: int| 0 <= k < s.len() && s[k] == x;
                    assert(t[k] == x);
                }
                if t.contains(x) {
                    let k = choose|k: int| 0 <= k < t.len() && t[k] == x;
                    assert(s[k] == x);
                }
                if x == m {
                    assert(s[s.len() - 1] == x);
                }
            }
        }
        lemma_fold_insert(t.to_set(), -CHECKMATE_SCORE - 1, f, m);
    }
}

/// The minimax value of the position to `depth`, from the side to move's
/// view. The position is left as it was.
pub fn negamax(pos: &mut Position, depth: u32) -> (r: i32)
    requires
        sound(*old(pos)),
        old(pos).halfmove_clock + depth <= u32::MAX,
    ensures
        r == minimax(node_of(*old(pos)), depth as nat),
        -CHECKMATE_SCORE <= r <= CHECKMATE_SCORE,
        node_of(*final(pos)) == node_of(*old(pos)),
        sound(*final(pos)),
        final(pos).halfmove_clock == old(pos).halfmove_clock,
        final(pos).zobrist_keys == old(pos).zobrist_keys,
        final(pos).fullmove_count == old(pos).fullmove_count,
    decreases depth,
{
    let ghost p0 = *pos;
    let ghost n0 = node_of(p0);
    if depth == 0 {
        let e = evaluate_material(pos);
        proof {
            crate::eval::lemma_material_bound(pos.view());
        }
        return e;
    }
    let moves = pos.get_legal_moves();
    let ghost p1 = *pos;
    proof {
        assert(legal_set(n0) =~= moves@.to_set());
    }
    if moves.len() == 0 {
        proof {
            assert(legal_set(n0) =~= Set::<Move>::empty());
        }
        let check = pos.is_in_check(pos.side_to_move);
        return if check {
            -CHECKMATE_SCORE
        } else {
            0
        };
    }
    proof {
        assert(moves@.contains(moves@[0]));
        assert(legal_set(n0).contains(moves@[0]));
        assert(!Set::<Move>::empty().contains(moves@[0]));
        assert(!(legal_set(n0) =~= Set::<Move>::empty()));
    }
    let ghost d1 = (depth - 1) as nat;
    let mut best: i32 = -CHECKMATE_SCORE - 1;
    let mut i: usize = 0;
    while i < moves.len()
        invariant
            i <= moves.len(),
            moves.len() > 0,
            depth >= 1,
            d1 == depth - 1,
            n0 == node_of(p0),
            p0.halfmove_clock + depth <= u32::MAX,
            forall|m: Move| #[trigger] moves@.contains(m) <==> legal(p0, m),
            best == seq_best(n0, d1, moves@.take(i as int)),
            i == 0 ==> best == -CHECKMATE_SCORE - 1,
            i > 0 ==> -CHECKMATE_SCORE <= best <= CHECKMATE_SCORE,
            node_of(*pos) == n0,
            sound(*pos),
            pos.halfmove_clock == p0.halfmove_clock,
            pos.zobrist_keys == p0.zobrist_keys,
            pos.fullmove_count == p0.fullmove_count,
        decreases moves.len() - i,
    {
        let mv = moves[i];
        let ghost q0 = *pos;
        proof {
            assert(moves@.contains(mv));
            assert(legal(q0, mv));
            lemma_pseudo_fits(q0, mv);
        }
        let undo = pos.make_move(mv);
        let ghost q = *pos;
        proof {
            lemma_legal_keeps_sound(q0, mv, q, undo);
            crate::perft::lemma_node_made(q0, mv, q, undo);
        }
        let child = negamax(pos, depth - 1);
        let score = -child;
        let ghost q1 = *pos;
        pos.undo_move(mv, undo);
        proof {
            let q2 = Position { fullmove_count: q.fullmove_count, ..q1 };
            let r2 = *pos;
            law_undo_restores(q0, mv, q2, undo, r2);
            assert(node_of(*pos) == n0);
            assert(pos.side_to_move == q0.side_to_move);
            assert(moves@.take(i as int + 1).drop_last() =~= moves@.take(i as int));
        }
        if score > best {
            best = score;
        }
        i = i + 1;
    }
    proof {
        assert(moves@.take(moves.len() as int) =~= moves@);
        lemma_seq_best_fold(n0, d1, moves@);
    }
    best
}

/// The best over a list is at least each of its children's values, and
/// at least the best over any prefix.
pub proof fn lemma_seq_best_ge(n: Node, depth: nat, s: Seq<Move>, k: int)
    requires
        0 <= k <= s.len(),
    ensures
        seq_best(n, depth, s) >= seq_best(n, depth, s.take(k)),
        forall|i: int| 0 <= i < s.len() ==> seq_best(n, depth, s) >= -minimax(next_node(n, #[trigger] s[i]), depth),
    decreases s.len(),
{
    if s.len() > 0 {
        let t = s.drop_last();
        if k == s.len() {
            assert(s.take(k) =~= s);
            lemma_seq_best_ge(n, depth, t, t.len() as int);
        } else {
            assert(s.take(k) =~= t.take(k));
            lemma_seq_best_ge(n, depth, t, k);
        }
        assert forall|i: int| 0 <= i < s.len() implies seq_best(n, depth, s) >= -minimax(next_node(n, #[trigger] s[i]), depth) by {
            if i < t.len() {
                assert(t[i] == s[i]);
            }
        }
    }
}

/// A bot that searches every legal move to a fixed depth.
pub struct Bot {
    pub depth: u32,
}

impl Bot {
    /// A bot searching 4 plies.
    #[allow(clippy::new_without_default)]
    pub fn new() -> (r: Self)
        ensures
            r.depth == 4,
    {
        Bot { depth: 4 }
    }

    /// A bot searching `depth` plies.
    pub fn with_depth(depth: u32) -> (r: Self)
        ensures
            r.depth == depth,
    {
        Bot { depth }
    }

    /// The first legal move (in the order the moves are generated) of best
    /// minimax value, or `None` when there is none. A depth of 0 cannot
    /// search a move (`requires`).
    pub fn best_move(&mut self, gs: &mut GameState) -> (r: Option<Move>)
        requires
            sound(old(gs).position),
            old(gs).position.halfmove_clock + old(self).depth < u32::MAX,
            old(self).depth >= 1 || no_legal_move(old(gs).position),
        ensures
            *final(self) == *old(self),
            r is None <==> no_legal_move(old(gs).position),
            r matches Some(m) ==> {
                &&& legal(old(gs).position, m)
                &&& -minimax(next_node(node_of(old(gs).position), m), (old(self).depth - 1) as nat)
                    == minimax(node_of(old(gs).position), old(self).depth as nat)
            },
            node_of(final(gs).position) == node_of(old(gs).position),
            final(gs).position.halfmove_clock == old(gs).position.halfmove_clock,
            final(gs).position.zobrist_keys == old(gs).position.zobrist_keys,
            final(gs).position.fullmove_count == old(gs).position.fullmove_count,
            final(gs).history == old(gs).history,
            final(gs).repetition_table == old(gs).repetition_table,
            final(gs).result == old(gs).result,
            final(gs).line == old(gs).line,
    {
        let ghost p0 = gs.position;
        let ghost n0 = node_of(p0);
        let moves = gs.position.get_legal_moves();
        if moves.len() == 0 {
            proof {
                assert forall|m: Move| !#[trigger] legal(p0, m) by {
                    assert(!moves@.contains(m));
                }
            }
            return None;
        }
        proof {
            assert(moves@.contains(moves@[0]));
            assert(legal_set(n0).contains(moves@[0]));
            assert(!Set::<Move>::empty().contains(moves@[0]));
            assert(legal_set(n0) =~= moves@.to_set());
        }
        let ghost d1 = (self.depth - 1) as nat;
        let mut best_move: Option<Move> = None;
        let mut best_score: i32 = -CHECKMATE_SCORE - 1;
        let mut i: usize = 0;
        while i < moves.len()
            invariant
                i <= moves.len(),
                moves.len() > 0,
                self.depth >= 1,
                d1 == self.depth - 1,
                n0 == node_of(p0),
                p0.halfmove_clock + self.depth <= u32::MAX,
                forall|m: Move| #[trigger] moves@.contains(m) <==> legal(p0, m),
                best_score == seq_best(n0, d1, moves@.take(i as int)),
                i == 0 ==> best_score == -CHECKMATE_SCORE - 1,
                i > 0 ==> -CHECKMATE_SCORE <= best_score <= CHECKMATE_SCORE,
                i > 0 ==> (best_move matches Some(m) && moves@.contains(m) && -minimax(next_node(n0, m), d1) == best_score),
                node_of(gs.position) == n0,
                sound(gs.position),
                gs.position.halfmove_clock == p0.halfmove_clock,
                gs.position.zobrist_keys == p0.zobrist_keys,
                gs.position.fullmove_count == p0.fullmove_count,
                gs.history == old(gs).history,
                gs.repetition_table == old(gs).repetition_table,
                gs.result == old(gs).result,
                gs.line == old(gs).line,
            decreases moves.len() - i,
        {
            let mv = moves[i];
            let ghost q0 = gs.position;
            proof {
                assert(moves@.contains(mv));
                assert(legal(q0, mv));
                lemma_pseudo_fits(q0, mv);
            }
            let undo = gs.position.make_move(mv);
            let ghost q = gs.position;
            proof {
                lemma_legal_keeps_sound(q0, mv, q, undo);
                crate::perft::lemma_node_made(q0, mv, q, undo);
            }
            let child = negamax(&mut gs.position, self.depth - 1);
            let score = -child;
            let ghost q1 = gs.position;
            gs.position.undo_move(mv, undo);
            proof {
                let q2 = Position { fullmove_count: q.fullmove_count, ..q1 };
                let r2 = gs.position;
                law_undo_restores(q0, mv, q2, undo, r2);
                assert(node_of(gs.position) == n0);
                assert(gs.position.side_to_move == q0.side_to_move);
                assert(moves@.take(i as int + 1).drop_last() =~= moves@.take(i as int));
            }
            if score > best_score {
                best_score = score;
                best_move = Some(mv);
            }
            i = i + 1;
        }
        proof {
            assert(moves@.take(moves.len() as int) =~= moves@);
            lemma_seq_best_fold(n0, d1, moves@);
            assert((self.depth - 1) as nat == d1);
        }
        best_move
    }
}

} // verus!

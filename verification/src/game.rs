//! A game: a position with the moves that led to it, a table of how often
//! each position (by its hash) has occurred, and the game's result by the
//! rules of checkmate, stalemate, repetition, the fifty-move rule and
//! insufficient material.
use vstd::prelude::*;
use std::collections::HashMap;
use crate::bits::{bit, sq_mask, popcount, count_ones, group_bit_lemmas};
use crate::bitboards::{BoardView, pidx, lemma_view_index, start_mailbox, start_cell};
use crate::attacks::{knight_step, king_step, pawn_step, bishop_reach, rook_reach};
use crate::types::{Color, Move, GameResult, move_eq, lemma_piece_index, lemma_color_index};
use crate::position::{
    Position, Undo, made, unmade, can_unmake, undo_view, attacked, king_square, zobrist_spec, law_undo_restores, piece_at, piece_kind, resets_clock,
};
use crate::movegen::{
    node_of, legal, sound, king_on, lemma_king_square, lemma_pseudo_fits, lemma_legal_keeps_sound,
};
use crate::perft::next_node;
use crate::fen::{fen_ok, fen_read};
use crate::validate::boards_agree;

verus! {

broadcast use group_bit_lemmas, lemma_piece_index, lemma_color_index, lemma_view_index,
    vstd::std_specs::hash::group_hash_axioms;

/// How often `k` occurs in `s`.
pub open spec fn occurrences(s: Seq<u64>, k: u64) -> nat
    decreases s.len(),
{
    if s.len() == 0 {
        0
    } else {
        occurrences(s.drop_last(), k) + if s.last() == k {
            1nat
        } else {
            0nat
        }
    }
}

proof fn lemma_occurrences_le_len(s: Seq<u64>, k: u64)
    ensures
        occurrences(s, k) <= s.len(),
    decreases s.len(),
{
    if s.len() > 0 {
        lemma_occurrences_le_len(s.drop_last(), k);
    }
}

/// Squares of the light color (b1, d1, ..., a2, c2, ...).
pub open spec fn light_squares() -> u64 {
    0x55AA55AA55AA55AAu64
}

/// Neither side can mate: no pawns, rooks or queens, and at most one minor
/// piece each, with king and bishop against king and bishop drawn only when
/// the bishops stand on squares of the same color, and king and bishop
/// against king and knight drawn.
pub open spec fn insufficient_material(v: BoardView) -> bool {
    let wp = v.pieces[pidx(0, 0)];
    let bp = v.pieces[pidx(1, 0)];
    let wn = v.pieces[pidx(0, 1)];
    let bn = v.pieces[pidx(1, 1)];
    let wb = v.pieces[pidx(0, 2)];
    let bb = v.pieces[pidx(1, 2)];
    let wr = v.pieces[pidx(0, 3)];
    let br = v.pieces[pidx(1, 3)];
    let wq = v.pieces[pidx(0, 4)];
    let bq = v.pieces[pidx(1, 4)];
    let wm = popcount(wn | wb);
    let bm = popcount(bn | bb);
    if wp != 0 || bp != 0 || wr != 0 || br != 0 || wq != 0 || bq != 0 {
        false
    } else if wm == 0 && bm == 0 {
        true
    } else if (wm == 1 && bm == 0) || (wm == 0 && bm == 1) {
        true
    } else if wm == 1 && bm == 1 && wn == 0 && bn == 0 {
        ((wb & light_squares()) != 0) == ((bb & light_squares()) != 0)
    } else if wm == 1 && bm == 1 {
        (wb != 0 && bn != 0 && wn == 0 && bb == 0) || (wn != 0 && bb != 0 && wb == 0 && bn == 0)
    } else {
        false
    }
}

/// A draw by insufficient material needs a board without pawns, rooks and
/// queens, with at most one knight or bishop a side: wherever a pawn, a
/// rook or a queen stands, or a side has two minor pieces, it is no such
/// draw.
pub proof fn law_insufficient_material(v: BoardView)
    ensures
        insufficient_material(v) ==> {
            &&& forall|c: int| 0 <= c < 2 ==> #[trigger] v.pieces[pidx(c, 0)] == 0 && v.pieces[pidx(c, 3)] == 0 && v.pieces[pidx(c, 4)] == 0
            &&& popcount(v.pieces[pidx(0, 1)] | v.pieces[pidx(0, 2)]) <= 1
            &&& popcount(v.pieces[pidx(1, 1)] | v.pieces[pidx(1, 2)]) <= 1
        },
{
}

/// Kings alone, or kings with a single knight or bishop beside them, are
/// a draw by insufficient material.
pub proof fn law_bare_kings(v: BoardView)
    requires
        forall|c: int| 0 <= c < 2 ==> #[trigger] v.pieces[pidx(c, 0)] == 0 && v.pieces[pidx(c, 3)] == 0 && v.pieces[pidx(c, 4)] == 0,
        popcount(v.pieces[pidx(0, 1)] | v.pieces[pidx(0, 2)]) + popcount(v.pieces[pidx(1, 1)] | v.pieces[pidx(1, 2)]) <= 1,
    ensures
        insufficient_material(v),
{
    assert(v.pieces[pidx(0, 0)] == 0 && v.pieces[pidx(0, 3)] == 0 && v.pieces[pidx(0, 4)] == 0);
    assert(v.pieces[pidx(1, 0)] == 0 && v.pieces[pidx(1, 3)] == 0 && v.pieces[pidx(1, 4)] == 0);
}

/// With only a king and one minor piece a side: a knight against a knight
/// can still mate and is no draw; a bishop against a knight is one.
pub proof fn law_minor_pairs(v: BoardView)
    requires
        forall|c: int| 0 <= c < 2 ==> #[trigger] v.pieces[pidx(c, 0)] == 0 && v.pieces[pidx(c, 3)] == 0 && v.pieces[pidx(c, 4)] == 0,
        popcount(v.pieces[pidx(0, 1)] | v.pieces[pidx(0, 2)]) == 1,
        popcount(v.pieces[pidx(1, 1)] | v.pieces[pidx(1, 2)]) == 1,
    ensures
        v.pieces[pidx(0, 2)] == 0 && v.pieces[pidx(1, 2)] == 0 ==> !insufficient_material(v),
        v.pieces[pidx(0, 1)] == 0 && v.pieces[pidx(1, 2)] == 0 ==> insufficient_material(v),
        v.pieces[pidx(0, 2)] == 0 && v.pieces[pidx(1, 1)] == 0 ==> insufficient_material(v),
{
    assert(v.pieces[pidx(0, 0)] == 0 && v.pieces[pidx(0, 3)] == 0 && v.pieces[pidx(0, 4)] == 0);
    assert(v.pieces[pidx(1, 0)] == 0 && v.pieces[pidx(1, 3)] == 0 && v.pieces[pidx(1, 4)] == 0);
    let wn = v.pieces[pidx(0, 1)];
    let wb = v.pieces[pidx(0, 2)];
    let bn = v.pieces[pidx(1, 1)];
    let bb = v.pieces[pidx(1, 2)];
    crate::bits::lemma_or_zero(wn);
    crate::bits::lemma_or_zero(bn);
    crate::bits::lemma_or_zero(wb);
    crate::bits::lemma_or_zero(bb);
    assert(popcount(0u64) == 0);
}

/// The color of square `s`: 0 for dark (as a1), 1 for light (as h1).
pub open spec fn square_color(s: int) -> int {
    (s / 8 + s % 8) % 2
}

/// The light squares are those of color 1.
proof fn lemma_light_squares(s: int)
    requires
        0 <= s < 64,
    ensures
        bit(light_squares(), s) <==> square_color(s) == 1,
{
    let su = s as u64;
    assert(((0x55AA55AA55AA55AAu64 >> su) & 1u64 == 1u64) == ((su / 8u64) % 2u64 != su % 2u64)) by (bit_vector)
        requires
            su < 64,
    ;
    assert((su / 8u64) as int == s / 8 && (su % 2u64) as int == s % 2);
    assert((s % 8) % 2 == s % 2);
}

/// King and bishop against king and bishop: a draw by insufficient material
/// exactly when the two bishops stand on squares of the same color.
pub proof fn law_bishops_by_color(v: BoardView, s1: int, s2: int)
    requires
        0 <= s1 < 64,
        0 <= s2 < 64,
        forall|c: int| 0 <= c < 2 ==> #[trigger] v.pieces[pidx(c, 0)] == 0 && v.pieces[pidx(c, 1)] == 0 && v.pieces[pidx(c, 3)] == 0
            && v.pieces[pidx(c, 4)] == 0,
        v.pieces[pidx(0, 2)] == sq_mask(s1),
        v.pieces[pidx(1, 2)] == sq_mask(s2),
    ensures
        insufficient_material(v) <==> square_color(s1) == square_color(s2),
{
    assert(v.pieces[pidx(0, 0)] == 0 && v.pieces[pidx(0, 1)] == 0 && v.pieces[pidx(0, 3)] == 0 && v.pieces[pidx(0, 4)] == 0);
    assert(v.pieces[pidx(1, 0)] == 0 && v.pieces[pidx(1, 1)] == 0 && v.pieces[pidx(1, 3)] == 0 && v.pieces[pidx(1, 4)] == 0);
    crate::bits::lemma_or_zero(sq_mask(s1));
    crate::bits::lemma_or_zero(sq_mask(s2));
    crate::bits::lemma_popcount_single(s1);
    crate::bits::lemma_popcount_single(s2);
    lemma_light_squares(s1);
    lemma_light_squares(s2);
    let l = light_squares();
    assert((sq_mask(s1) & l != 0) <==> bit(l, s1)) by {
        crate::bits::lemma_zero_iff_empty(sq_mask(s1) & l);
        assert(bit(sq_mask(s1) & l, s1) <==> bit(l, s1));
        assert forall|t: int| 0 <= t < 64 && t != s1 implies !#[trigger] bit(sq_mask(s1) & l, t) by {}
    }
    assert((sq_mask(s2) & l != 0) <==> bit(l, s2)) by {
        crate::bits::lemma_zero_iff_empty(sq_mask(s2) & l);
        assert(bit(sq_mask(s2) & l, s2) <==> bit(l, s2));
        assert forall|t: int| 0 <= t < 64 && t != s2 implies !#[trigger] bit(sq_mask(s2) & l, t) by {}
    }
    assert(sq_mask(s1) != 0 && sq_mask(s2) != 0) by {
        assert(bit(sq_mask(s1), s1));
        assert(bit(sq_mask(s2), s2));
        crate::bits::lemma_zero_iff_empty(sq_mask(s1));
        crate::bits::lemma_zero_iff_empty(sq_mask(s2));
    }
}

/// A game is declared drawn for insufficient material only on a board
/// without pawns, rooks and queens.
pub proof fn law_material_draw(p: Position, reps: Map<u64, u32>)
    ensures
        result_of(p, reps) == GameResult::DrawInsufficientMaterial ==> forall|c: int|
            0 <= c < 2 ==> #[trigger] p.view().pieces[pidx(c, 0)] == 0 && p.view().pieces[pidx(c, 3)] == 0
                && p.view().pieces[pidx(c, 4)] == 0,
{
    law_insufficient_material(p.view());
}

/// The side to move has no legal move.
pub open spec fn no_legal_move(p: Position) -> bool {
    forall|m: Move| !#[trigger] legal(p, m)
}

/// The result a game stands at in position `p`, with `reps` counting how
/// often each hash has occurred: without a legal move, checkmate (won by
/// the other side) or stalemate; else a draw by the fifty-move rule, by
/// threefold repetition, or by insufficient material; else the game goes on.
pub open spec fn result_of(p: Position, reps: Map<u64, u32>) -> GameResult {
    let v = p.view();
    let c = p.side_to_move.index();
    let h = zobrist_spec(p);
    if no_legal_move(p) {
        if attacked(v, king_square(v, c), 1 - c) {
            GameResult::Checkmate(p.side_to_move.other())
        } else {
            GameResult::Stalemate
        }
    } else if p.halfmove_clock >= 100 {
        GameResult::DrawFiftyMove
    } else if reps.contains_key(h) && reps[h] >= 3 {
        GameResult::DrawRepetition
    } else if insufficient_material(v) {
        GameResult::DrawInsufficientMaterial
    } else {
        GameResult::Ongoing
    }
}

/// The table after one more occurrence of `h`.
pub open spec fn counted(reps: Map<u64, u32>, h: u64) -> Map<u64, u32> {
    reps.insert(h, if reps.contains_key(h) { (reps[h] + 1) as u32 } else { 1u32 })
}

/// The table after one occurrence of `h` fewer: an entry of 1 is removed.
pub open spec fn uncounted(reps: Map<u64, u32>, h: u64) -> Map<u64, u32> {
    if reps.contains_key(h) {
        if reps[h] > 1 {
            reps.insert(h, (reps[h] - 1) as u32)
        } else {
            reps.remove(h)
        }
    } else {
        reps
    }
}

/// The move's full-move counter after a move of `side` from `fullmove`.
pub open spec fn fullmove_after(fullmove: u32, side: Color) -> u32 {
    if side == Color::Black {
        fullmove.wrapping_add(1)
    } else {
        fullmove
    }
}

/// `q` is, but for the full-move counters, what making `mv` in `p` gives,
/// with `u` the record of it.
pub open spec fn leads(p: Position, mv: Move, q: Position, u: Undo) -> bool {
    made(
        Position { fullmove_count: u.fullmove_count, ..p },
        mv,
        Position { fullmove_count: fullmove_after(u.fullmove_count, p.side_to_move), ..q },
        u,
    )
}

/// The position `p` a recorded move `e` was legally made from, leading to `q`.
pub open spec fn prior(p: Position, e: (Move, Undo), q: Position) -> bool {
    &&& sound(p)
    &&& p.halfmove_clock < u32::MAX
    &&& legal(p, e.0)
    &&& leads(p, e.0, q, e.1)
}

/// The moves `h` were legally made, one after another, ending in `q`; the
/// hashes `line` are those of the positions after each move, with the
/// starting position's in front when it was counted.
pub open spec fn history_ok(q: Position, h: Seq<(Move, Undo)>, line: Seq<u64>) -> bool
    decreases h.len(),
{
    if h.len() == 0 {
        line.len() <= 1 && (line.len() == 1 ==> line[0] == zobrist_spec(q))
    } else {
        &&& line.len() >= 1
        &&& line.last() == zobrist_spec(q)
        &&& exists|p: Position| #[trigger] prior(p, h.last(), q) && history_ok(p, h.drop_last(), line.drop_last())
    }
}

/// The starting position is sound: one king each, the castling rights
/// match the kings, and Black's king is not attacked.
proof fn lemma_start_sound(p: Position)
    requires
        p.wf(),
        p.view().mailbox == start_mailbox(),
        p.side_to_move == Color::White,
        p.en_passant is None,
    ensures
        sound(p),
{
    let v = p.view();
    assert forall|s: int| 0 <= s < 64 implies (#[trigger] piece_at(v, s, 0, 5) <==> s == 4) by {
        assert(v.mailbox[s] == start_cell(s));
    }
    assert forall|s: int| 0 <= s < 64 implies (#[trigger] piece_at(v, s, 1, 5) <==> s == 60) by {
        assert(v.mailbox[s] == start_cell(s));
    }
    assert(king_on(v, 0, 4));
    assert(king_on(v, 1, 60));
    lemma_king_square(v, 0, 4);
    lemma_king_square(v, 1, 60);
    // Every square next to Black's king is occupied by a black piece, so
    // no slider reaches it from further away.
    assert forall|t: int| 48 <= t < 64 implies #[trigger] bit(v.all, t) && v.mailbox[t] == start_cell(t) by {
        assert(v.mailbox[t] == start_cell(t));
    }
    assert forall|a: int| 0 <= a < 64 && piece_at(v, a, 0, 0) implies !#[trigger] pawn_step(0, a, 60) by {
        assert(v.mailbox[a] == start_cell(a));
    }
    assert forall|a: int| 0 <= a < 64 && piece_at(v, a, 0, 1) implies !#[trigger] knight_step(60, a) by {
        assert(v.mailbox[a] == start_cell(a));
    }
    assert forall|a: int| 0 <= a < 64 && piece_at(v, a, 0, 5) implies !#[trigger] king_step(60, a) by {
        assert(v.mailbox[a] == start_cell(a));
    }
    assert forall|a: int| 0 <= a < 64 && (piece_at(v, a, 0, 2) || piece_at(v, a, 0, 4)) implies !#[trigger] bishop_reach(v.all, 60, a) by {
        assert(v.mailbox[a] == start_cell(a));
        assert(bit(v.all, 53) && bit(v.all, 51));
    }
    assert forall|a: int| 0 <= a < 64 && (piece_at(v, a, 0, 3) || piece_at(v, a, 0, 4)) implies !#[trigger] rook_reach(v.all, 60, a) by {
        assert(v.mailbox[a] == start_cell(a));
        assert(bit(v.all, 52) && bit(v.all, 59) && bit(v.all, 61));
    }
    assert(!attacked(v, 60, 0));
}

/// `h` is the game `g` after the legal move `mv`: the position it leads to
/// (the full-move counter one higher after a move of Black), the move
/// recorded with what takes it back, the new position counted once more,
/// and the result recomputed.
pub open spec fn game_made(g: GameState, mv: Move, h: GameState) -> bool {
    let p = g.position;
    let q = h.position;
    let moved = piece_kind(p.view().mailbox[mv.from as int]).unwrap();
    &&& node_of(q) == next_node(node_of(p), mv)
    &&& q.halfmove_clock == (if resets_clock(mv, moved) { 0 } else { (p.halfmove_clock + 1) as u32 })
    &&& q.zobrist_keys == p.zobrist_keys
    &&& h.history().len() == g.history().len() + 1
    &&& h.history().drop_last() == g.history()
    &&& h.history().last().0 == mv
    &&& leads(p, mv, q, h.history().last().1)
    &&& h.history().last().1.fullmove_count == p.fullmove_count
    &&& q.fullmove_count == fullmove_after(p.fullmove_count, p.side_to_move)
    &&& h.repetitions() == counted(g.repetitions(), zobrist_spec(q))
    &&& h.result == result_of(q, h.repetitions())
}

/// `h` is the game `g` with its last move taken back: the position before
/// it, the record dropped, the position left counted once less, and the
/// result recomputed.
pub open spec fn game_undone(g: GameState, h: GameState) -> bool {
    let mv = g.history().last().0;
    let u = g.history().last().1;
    let p = g.position;
    let q = h.position;
    &&& h.history() == g.history().drop_last()
    &&& q.view() == undo_view(p.view(), mv, p.side_to_move.other().index(), u)
    &&& q.side_to_move == p.side_to_move.other()
    &&& q.castling_rights == u.castling_rights
    &&& q.en_passant == u.en_passant
    &&& q.halfmove_clock == u.halfmove_clock
    &&& q.fullmove_count == u.fullmove_count
    &&& q.zobrist_keys == p.zobrist_keys
    &&& h.repetitions() == uncounted(g.repetitions(), zobrist_spec(p))
    &&& h.result == result_of(q, h.repetitions())
}

/// `h` is `g` as far as its position, record, repetitions and result go.
pub open spec fn same_game(g: GameState, h: GameState) -> bool {
    &&& node_of(h.position) == node_of(g.position)
    &&& h.position.halfmove_clock == g.position.halfmove_clock
    &&& h.position.fullmove_count == g.position.fullmove_count
    &&& h.position.zobrist_keys == g.position.zobrist_keys
    &&& h.history() == g.history()
    &&& h.repetitions() == g.repetitions()
    &&& h.result == g.result
}

proof fn lemma_history_len(q: Position, h: Seq<(Move, Undo)>, line: Seq<u64>)
    requires
        history_ok(q, h, line),
    ensures
        line.len() <= h.len() + 1,
    decreases h.len(),
{
    if h.len() > 0 {
        let p = choose|p: Position| #[trigger] prior(p, h.last(), q) && history_ok(p, h.drop_last(), line.drop_last());
        lemma_history_len(p, h.drop_last(), line.drop_last());
    }
}

/// The history's soundness depends on the last position only through its
/// node, its clock and its keys.
proof fn lemma_history_node(q: Position, r: Position, h: Seq<(Move, Undo)>, line: Seq<u64>)
    requires
        history_ok(q, h, line),
        node_of(r) == node_of(q),
        r.halfmove_clock == q.halfmove_clock,
        r.zobrist_keys == q.zobrist_keys,
    ensures
        history_ok(r, h, line),
{
    assert(r.side_to_move == q.side_to_move);
    assert(zobrist_spec(r) == zobrist_spec(q));
    if h.len() > 0 {
        let p = choose|p: Position| #[trigger] prior(p, h.last(), q) && history_ok(p, h.drop_last(), line.drop_last());
        assert(prior(p, h.last(), r));
    }
}

proof fn lemma_occurrences_push(s: Seq<u64>, x: u64, k: u64)
    ensures
        occurrences(s.push(x), k) == occurrences(s, k) + if x == k { 1nat } else { 0nat },
{
    assert(s.push(x).drop_last() =~= s);
}

/// The table holds, for each hash in `line`, how often it occurs there.
pub open spec fn counts(reps: Map<u64, u32>, line: Seq<u64>) -> bool {
    &&& forall|k: u64| #[trigger] reps.contains_key(k) <==> occurrences(line, k) > 0
    &&& forall|k: u64| #[trigger] reps.contains_key(k) ==> reps[k] == occurrences(line, k)
}

proof fn lemma_counts_push(reps: Map<u64, u32>, line: Seq<u64>, h: u64)
    requires
        counts(reps, line),
        reps.contains_key(h) ==> reps[h] < u32::MAX,
    ensures
        counts(counted(reps, h), line.push(h)),
{
    let r2 = counted(reps, h);
    assert forall|k: u64| #[trigger] r2.contains_key(k) <==> occurrences(line.push(h), k) > 0 by {
        lemma_occurrences_push(line, h, k);
    }
    assert forall|k: u64| #[trigger] r2.contains_key(k) implies r2[k] == occurrences(line.push(h), k) by {
        lemma_occurrences_push(line, h, k);
    }
}

proof fn lemma_counts_pop(reps: Map<u64, u32>, line: Seq<u64>)
    requires
        counts(reps, line),
        line.len() > 0,
    ensures
        counts(uncounted(reps, line.last()), line.drop_last()),
{
    let h = line.last();
    let t = line.drop_last();
    assert(line =~= t.push(h));
    lemma_counts_push_inv(reps, t, h);
}

proof fn lemma_counts_push_inv(reps: Map<u64, u32>, t: Seq<u64>, h: u64)
    requires
        counts(reps, t.push(h)),
    ensures
        counts(uncounted(reps, h), t),
{
    let r2 = uncounted(reps, h);
    lemma_occurrences_push(t, h, h);
    assert forall|k: u64| #[trigger] r2.contains_key(k) <==> occurrences(t, k) > 0 by {
        lemma_occurrences_push(t, h, k);
    }
    assert forall|k: u64| #[trigger] r2.contains_key(k) implies r2[k] == occurrences(t, k) by {
        lemma_occurrences_push(t, h, k);
    }
}

/// Whether `moves` lists `mv`.
fn contains_move(moves: &Vec<Move>, mv: &Move) -> (r: bool)
    ensures
        r == moves@.contains(*mv),
{
    let mut i: usize = 0;
    while i < moves.len()
        invariant
            i <= moves.len(),
            forall|j: int| 0 <= j < i ==> moves@[j] != *mv,
        decreases moves.len() - i,
    {
        if move_eq(&moves[i], mv) {
            return true;
        }
        i = i + 1;
    }
    false
}

/// A game in progress: the position, the moves made with what is needed to
/// take them back, how often each position has occurred, and the result.
#[derive(Clone)]
pub struct GameState {
    pub position: Position,
    pub history: Vec<(Move, Undo)>,
    pub repetition_table: HashMap<u64, u32>,
    pub result: GameResult,
    /// The hashes counted in the table, in the order of the game.
    pub line: Ghost<Seq<u64>>,
}

impl GameState {
    /// The moves made, each with its record.
    pub open spec fn history(&self) -> Seq<(Move, Undo)> {
        self.history@
    }

    /// How often each hash has occurred in the game.
    pub open spec fn repetitions(&self) -> Map<u64, u32> {
        self.repetition_table@
    }

    /// The moves were made legally one after another, and the table counts
    /// the hashes of the positions they led to (and of the starting
    /// position when it was counted).
    pub open spec fn wf(&self) -> bool {
        &&& history_ok(self.position, self.history@, self.line@)
        &&& counts(self.repetition_table@, self.line@)
    }

    /// The result was computed from the position and the table.
    pub open spec fn settled(&self) -> bool {
        self.result == result_of(self.position, self.repetitions())
    }

    /// Whether neither side has the material to mate.
    fn is_insufficient_material(&self) -> (r: bool)
        ensures
            r == insufficient_material(self.position.view()),
    {
        let pieces = &self.position.bitboards.pieces;
        let wp = pieces[0][0];
        let bp = pieces[1][0];
        let wr = pieces[0][3];
        let br = pieces[1][3];
        let wq = pieces[0][4];
        let bq = pieces[1][4];
        let wn = pieces[0][1];
        let bn = pieces[1][1];
        let wb = pieces[0][2];
        let bb = pieces[1][2];
        proof {
            let bbs = self.position.bitboards;
            assert(bbs.view().pieces[pidx(0, 0)] == wp);
            assert(bbs.view().pieces[pidx(1, 0)] == bp);
            assert(bbs.view().pieces[pidx(0, 1)] == wn);
            assert(bbs.view().pieces[pidx(1, 1)] == bn);
            assert(bbs.view().pieces[pidx(0, 2)] == wb);
            assert(bbs.view().pieces[pidx(1, 2)] == bb);
            assert(bbs.view().pieces[pidx(0, 3)] == wr);
            assert(bbs.view().pieces[pidx(1, 3)] == br);
            assert(bbs.view().pieces[pidx(0, 4)] == wq);
            assert(bbs.view().pieces[pidx(1, 4)] == bq);
        }
        if wp != 0 || bp != 0 || wr != 0 || br != 0 || wq != 0 || bq != 0 {
            return false;
        }
        let white_minor_count = count_ones(wn | wb);
        let black_minor_count = count_ones(bn | bb);
        if white_minor_count == 0 && black_minor_count == 0 {
            return true;
        }
        if (white_minor_count == 1 && black_minor_count == 0) || (white_minor_count == 0
            && black_minor_count == 1) {
            return true;
        }
        if white_minor_count == 1 && black_minor_count == 1 && wn == 0 && bn == 0 {
            let light_squares: u64 = 0x55AA55AA55AA55AA;
            let white_bishop_on_light = (wb & light_squares) != 0;
            let black_bishop_on_light = (bb & light_squares) != 0;
            return white_bishop_on_light == black_bishop_on_light;
        }
        if white_minor_count == 1 && black_minor_count == 1 {
            let white_has_bishop = wb != 0;
            let black_has_bishop = bb != 0;
            let white_has_knight = wn != 0;
            let black_has_knight = bn != 0;
            if (white_has_bishop && black_has_knight && wn == 0 && bb == 0) || (white_has_knight
                && black_has_bishop && wb == 0 && bn == 0) {
                return true;
            }
        }
        false
    }

    /// Counts one more occurrence of the current position.
    fn update_repetition(&mut self)
        requires
            old(self).position.wf(),
            old(self).repetition_table@.contains_key(zobrist_spec(old(self).position))
                ==> old(self).repetition_table@[zobrist_spec(old(self).position)] < u32::MAX,
        ensures
            final(self).repetition_table@ == counted(old(self).repetition_table@, zobrist_spec(old(self).position)),
            final(self).position == old(self).position,
            final(self).history == old(self).history,
            final(self).result == old(self).result,
            final(self).line == old(self).line,
    {
        let hash = self.position.zobrist_hash();
        let count: u32 = match self.repetition_table.get(&hash) {
            Some(c) => *c,
            None => 0,
        };
        self.repetition_table.insert(hash, count + 1);
    }

    /// Counts one occurrence of `hash` fewer, dropping it at zero.
    fn decrement_repetition(&mut self, hash: u64)
        ensures
            final(self).repetition_table@ == uncounted(old(self).repetition_table@, hash),
            final(self).position == old(self).position,
            final(self).history == old(self).history,
            final(self).result == old(self).result,
            final(self).line == old(self).line,
    {
        let count: Option<u32> = match self.repetition_table.get(&hash) {
            Some(c) => Some(*c),
            None => None,
        };
        if let Some(c) = count {
            if c > 1 {
                self.repetition_table.insert(hash, c - 1);
            } else {
                self.repetition_table.remove(&hash);
            }
        }
    }

    /// Sets the result from the position, its legal moves `legal_moves` and the table.
    fn update_game_result(&mut self, legal_moves: &Vec<Move>)
        requires
            old(self).position.wf(),
            old(self).position.view().pieces[pidx(old(self).position.side_to_move.index(), 5)] != 0,
            forall|m: Move| #[trigger] legal_moves@.contains(m) <==> legal(old(self).position, m),
        ensures
            final(self).result == result_of(old(self).position, old(self).repetition_table@),
            final(self).position == old(self).position,
            final(self).history == old(self).history,
            final(self).repetition_table == old(self).repetition_table,
            final(self).line == old(self).line,
    {
        proof {
            if legal_moves@.len() > 0 {
                assert(legal_moves@.contains(legal_moves@[0]));
            }
        }
        if legal_moves.len() == 0 {
            proof {
                assert forall|m: Move| !#[trigger] legal(self.position, m) by {
                    assert(!legal_moves@.contains(m));
                }
            }
            if self.position.is_in_check(self.position.side_to_move) {
                let winner = self.position.side_to_move.opposite();
                self.result = GameResult::Checkmate(winner);
            } else {
                self.result = GameResult::Stalemate;
            }
            return;
        }
        if self.position.halfmove_clock >= 100 {
            self.result = GameResult::DrawFiftyMove;
            return;
        }
        let hash = self.position.zobrist_hash();
        if let Some(count) = self.repetition_table.get(&hash) {
            if *count >= 3 {
                self.result = GameResult::DrawRepetition;
                return;
            }
        }
        if self.is_insufficient_material() {
            self.result = GameResult::DrawInsufficientMaterial;
            return;
        }
        self.result = GameResult::Ongoing;
    }
}

impl GameState {
    /// A new game from the starting position, which is counted once.
    #[allow(clippy::new_without_default)]
    pub fn new() -> (r: Self)
        ensures
            r.wf(),
            sound(r.position),
            r.position.view().mailbox == start_mailbox(),
            r.position.side_to_move == Color::White,
            r.position.castling_rights == 0b1111,
            r.position.en_passant is None,
            r.position.halfmove_clock == 0,
            r.position.fullmove_count == 1,
            r.position.zobrist_keys.drawn(),
            r.history().len() == 0,
            r.repetitions() == map![zobrist_spec(r.position) => 1u32],
            r.result == GameResult::Ongoing,
    {
        let position = Position::new();
        proof {
            lemma_start_sound(position);
        }
        let mut repetition_table: HashMap<u64, u32> = HashMap::new();
        let h = position.zobrist_hash();
        repetition_table.insert(h, 1);
        let line: Ghost<Seq<u64>> = Ghost(Seq::<u64>::empty().push(h));
        let r = Self {
            position,
            history: Vec::new(),
            repetition_table,
            result: GameResult::Ongoing,
            line,
        };
        proof {
            assert(r.repetition_table@ =~= map![h => 1u32]);
            assert(r.line@.drop_last() =~= Seq::<u64>::empty());
            assert forall|k: u64| #[trigger] r.repetition_table@.contains_key(k) <==> occurrences(r.line@, k) > 0 by {
                assert(occurrences(r.line@, k) == occurrences(Seq::<u64>::empty(), k) + if h == k { 1nat } else { 0nat });
            }
            assert forall|k: u64| #[trigger] r.repetition_table@.contains_key(k) implies r.repetition_table@[k] == occurrences(r.line@, k) by {
                assert(occurrences(r.line@, k) == occurrences(Seq::<u64>::empty(), k) + if h == k { 1nat } else { 0nat });
            }
        }
        r
    }

    /// Plays `mv`: refused once the game is over, or when the move is not
    /// legal; else the move is made and recorded, the new position counted,
    /// and the result recomputed. Finding the legal moves makes and takes
    /// back each pseudo-legal move, which leaves the position as it was.
    pub fn make_move(&mut self, mv: Move) -> (r: Result<(), &str>)
        requires
            old(self).result == GameResult::Ongoing ==> {
                &&& old(self).wf()
                &&& sound(old(self).position)
                &&& old(self).position.halfmove_clock < u32::MAX - 1
                &&& old(self).history().len() + 2 < u32::MAX
            },
        ensures
            old(self).result == GameResult::Ongoing ==> final(self).wf() && sound(final(self).position),
            old(self).result != GameResult::Ongoing ==> {
                &&& r == Err::<(), &str>("Game already finished")
                &&& *final(self) == *old(self)
                &&& same_game(*old(self), *final(self))
            },
            old(self).result == GameResult::Ongoing && !legal(old(self).position, mv) ==> {
                &&& r == Err::<(), &str>("Illegal Move")
                &&& same_game(*old(self), *final(self))
            },
            old(self).result == GameResult::Ongoing && legal(old(self).position, mv) ==> {
                &&& r == Ok::<(), &str>(())
                &&& game_made(*old(self), mv, *final(self))
            },
    {
        if self.result != GameResult::Ongoing {
            return Err("Game already finished");
        }
        let ghost g0 = *self;
        let legal_before = self.position.get_legal_moves();
        proof {
            lemma_history_node(g0.position, self.position, self.history@, self.line@);
            lemma_sound_same_node(g0.position, self.position);
        }
        if !contains_move(&legal_before, &mv) {
            return Err("Illegal Move");
        }
        let ghost p1 = self.position;
        proof {
            lemma_pseudo_fits(p1, mv);
        }
        let undo = self.position.make_move(mv);
        let ghost q = self.position;
        proof {
            lemma_legal_keeps_sound(p1, mv, q, undo);
        }
        self.history.push((mv, undo));
        proof {
            let h = zobrist_spec(q);
            lemma_history_len(p1, g0.history@, g0.line@);
            lemma_occurrences_le_len(g0.line@, h);
        }
        self.update_repetition();
        proof {
            self.line@ = self.line@.push(zobrist_spec(q));
        }
        let legal_after = self.position.get_legal_moves();
        let ghost q1 = self.position;
        proof {
            lemma_sound_same_node(q, q1);
        }
        self.update_game_result(&legal_after);
        proof {
            let h = zobrist_spec(q);
            assert(zobrist_spec(q1) == h);
            assert(self.history@.drop_last() =~= g0.history@);
            assert(self.line@.drop_last() =~= g0.line@);
            assert(prior(p1, self.history@.last(), q1));
            assert(history_ok(self.position, self.history@, self.line@));
            lemma_counts_push(g0.repetition_table@, g0.line@, h);
            lemma_result_same_node(q, q1, self.repetition_table@);
        }
        Ok(())
    }

    /// Takes back the last move, if any: the position before it returns,
    /// the position left is counted once
    /// less, and the result is recomputed. Without a move, nothing changes.
    #[verifier::rlimit(40)]
    pub fn undo_move(&mut self)
        requires
            old(self).wf(),
        ensures
            final(self).wf(),
            old(self).history().len() == 0 ==> {
                &&& same_game(*old(self), *final(self))
                &&& final(self).position.fullmove_count == old(self).position.fullmove_count
            },
            old(self).history().len() > 0 ==> {
                &&& game_undone(*old(self), *final(self))
                &&& sound(final(self).position)
            },
    {
        let ghost g0 = *self;
        if let Some((mv, undo)) = self.history.pop() {
            let ghost q = g0.position;
            let ghost p = lemma_history_last(q, g0.history@, g0.line@);
            let hash_to_remove = self.position.zobrist_hash();
            self.position.undo_move(mv, undo);
            let ghost r = self.position;
            proof {
                lemma_undo_step(p, mv, undo, q, r);
                lemma_history_node(p, r, self.history@, g0.line@.drop_last());
            }
            self.decrement_repetition(hash_to_remove);
            proof {
                self.line@ = self.line@.drop_last();
            }
            let legal = self.position.get_legal_moves();
            let ghost r1 = self.position;
            proof {
                lemma_sound_same_node(r, r1);
                lemma_history_node(r, r1, self.history@, self.line@);
            }
            self.update_game_result(&legal);
            proof {
                lemma_counts_pop(g0.repetition_table@, g0.line@);
                lemma_result_same_node(r, r1, self.repetition_table@);
            }
        }
    }
}

/// The last recorded move was made from a sound position and can be taken back.
proof fn lemma_history_last(q: Position, h: Seq<(Move, Undo)>, line: Seq<u64>) -> (p: Position)
    requires
        history_ok(q, h, line),
        h.len() > 0,
    ensures
        prior(p, h.last(), q),
        history_ok(p, h.drop_last(), line.drop_last()),
        line.len() >= 1,
        line.last() == zobrist_spec(q),
        q.wf(),
        can_unmake(q.side_to_move.other().index(), h.last().0),
{
    let p = choose|p: Position| #[trigger] prior(p, h.last(), q) && history_ok(p, h.drop_last(), line.drop_last());
    let mv = h.last().0;
    let u = h.last().1;
    lemma_pseudo_fits(p, mv);
    let p2 = Position { fullmove_count: u.fullmove_count, ..p };
    let q2 = Position { fullmove_count: fullmove_after(u.fullmove_count, p.side_to_move), ..q };
    crate::position::lemma_make_wf(p.view(), mv, p.side_to_move.index(), piece_kind(p.view().mailbox[mv.from as int]).unwrap(), piece_kind(p.view().mailbox[mv.to as int]));
    assert(q.view() == q2.view());
    p
}

/// The result depends on the position only through its node, its clock and its keys.
proof fn lemma_result_same_node(p: Position, q: Position, reps: Map<u64, u32>)
    requires
        node_of(q) == node_of(p),
        q.halfmove_clock == p.halfmove_clock,
        q.zobrist_keys == p.zobrist_keys,
    ensures
        result_of(q, reps) == result_of(p, reps),
{
    assert(q.side_to_move == p.side_to_move);
    assert(zobrist_spec(q) == zobrist_spec(p));
    assert(no_legal_move(q) == no_legal_move(p)) by {
        assert forall|m: Move| #![trigger legal(q, m)] #![trigger legal(p, m)] legal(q, m) == legal(p, m) by {}
        if !no_legal_move(q) {
            let m = choose|m: Move| legal(q, m);
            assert(legal(p, m));
        }
        if !no_legal_move(p) {
            let m = choose|m: Move| legal(p, m);
            assert(legal(q, m));
        }
    }
}

/// Taking back the move of a recorded step returns to its prior position
/// (its node, clock and keys).
proof fn lemma_undo_step(p: Position, mv: Move, u: Undo, q: Position, r: Position)
    requires
        prior(p, (mv, u), q),
        unmade(q, mv, u, r),
    ensures
        node_of(r) == node_of(p),
        r.halfmove_clock == p.halfmove_clock,
        r.zobrist_keys == p.zobrist_keys,
        sound(r),
{
    lemma_pseudo_fits(p, mv);
    let p2 = Position { fullmove_count: u.fullmove_count, ..p };
    let q2 = Position { fullmove_count: fullmove_after(u.fullmove_count, p.side_to_move), ..q };
    let r2 = r;
    law_undo_restores(p2, mv, q2, u, r2);
    assert(node_of(r) == node_of(p));
    lemma_sound_same_node(p, r);
}

/// A position with the node, the clock and the keys of a sound one is sound.
proof fn lemma_sound_same_node(p: Position, q: Position)
    requires
        sound(p),
        node_of(q) == node_of(p),
    ensures
        sound(q),
{
    assert(q.side_to_move == p.side_to_move);
}

impl GameState {
    /// A game from a FEN position (or `startpos`), with no move made, the
    /// position counted once (where its boards agree, which is what hashing
    /// it asks); the result is taken to be that the game goes on.
    pub fn from_fen(fen: &str) -> (r: Self)
        requires
            fen_ok(fen@),
        ensures
            r.wf(),
            fen_read(fen@, r.position),
            r.history().len() == 0,
            r.position.wf() ==> r.repetitions() == map![zobrist_spec(r.position) => 1u32],
            !r.position.wf() ==> r.repetitions() == Map::<u64, u32>::empty(),
            r.result == GameResult::Ongoing,
    {
        let position = Position::from_fen(fen);
        let mut repetition_table: HashMap<u64, u32> = HashMap::new();
        let ep_fits = match position.en_passant {
            Some(e) => e < 64,
            None => true,
        };
        if !boards_agree(&position.bitboards) || !ep_fits {
            let r = Self {
                position,
                history: Vec::new(),
                repetition_table,
                result: GameResult::Ongoing,
                line: Ghost(Seq::<u64>::empty()),
            };
            proof {
                assert(r.repetition_table@ =~= Map::<u64, u32>::empty());
            }
            return r;
        }
        let h = position.zobrist_hash();
        repetition_table.insert(h, 1);
        let line: Ghost<Seq<u64>> = Ghost(Seq::<u64>::empty().push(h));
        let r = Self {
            position,
            history: Vec::new(),
            repetition_table,
            result: GameResult::Ongoing,
            line,
        };
        proof {
            assert(r.repetition_table@ =~= map![h => 1u32]);
            assert(r.line@.drop_last() =~= Seq::<u64>::empty());
            assert forall|k: u64| #[trigger] r.repetition_table@.contains_key(k) <==> occurrences(r.line@, k) > 0 by {
                assert(occurrences(r.line@, k) == occurrences(Seq::<u64>::empty(), k) + if h == k { 1nat } else { 0nat });
            }
            assert forall|k: u64| #[trigger] r.repetition_table@.contains_key(k) implies r.repetition_table@[k] == occurrences(r.line@, k) by {
                assert(occurrences(r.line@, k) == occurrences(Seq::<u64>::empty(), k) + if h == k { 1nat } else { 0nat });
            }
        }
        r
    }
}

/// Playing a legal move and taking it back restores the game: the position
/// (its counters too), the recorded moves and the table of repetitions; and
/// the result too, when it had been computed from them.
pub proof fn law_make_then_undo(g0: GameState, mv: Move, g1: GameState, g2: GameState)
    requires
        g0.wf(),
        sound(g0.position),
        g0.history().len() + 2 < u32::MAX,
        legal(g0.position, mv),
        game_made(g0, mv, g1),
        game_undone(g1, g2),
    ensures
        node_of(g2.position) == node_of(g0.position),
        g2.position.halfmove_clock == g0.position.halfmove_clock,
        g2.position.fullmove_count == g0.position.fullmove_count,
        g2.position.zobrist_keys == g0.position.zobrist_keys,
        g2.history() == g0.history(),
        g2.repetitions() == g0.repetitions(),
        g0.settled() ==> g2.result == g0.result,
{
    let p = g0.position;
    let q = g1.position;
    let r = g2.position;
    let u = g1.history().last().1;
    assert(g1.history().last() == (mv, u));
    lemma_pseudo_fits(p, mv);
    let p2 = Position { fullmove_count: u.fullmove_count, ..p };
    let q2 = Position { fullmove_count: fullmove_after(u.fullmove_count, p.side_to_move), ..q };
    let r2 = r;
    assert(unmade(q2, mv, u, r2));
    law_undo_restores(p2, mv, q2, u, r2);
    assert(node_of(r) == node_of(p));
    let h = zobrist_spec(q);
    let reps = g0.repetitions();
    lemma_history_len(p, g0.history@, g0.line@);
    lemma_occurrences_le_len(g0.line@, h);
    assert(uncounted(counted(reps, h), h) =~= reps);
    lemma_result_same_node(p, r, reps);
}

} // verus!

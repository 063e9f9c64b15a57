//! Move generation: the pseudo-legal moves of a position (those that obey
//! how the pieces move, leaving aside whether the mover's king is left in
//! check), and the legal ones.
use vstd::prelude::*;
use crate::bits::{bit, group_bit_lemmas, lowest_square, lemma_lowest_bit, is_set};
use crate::attacks::{
    lemma_bishop_symmetric, lemma_rook_symmetric,
    knight_step, king_step, pawn_step, bishop_reach, rook_reach, knight_attacks, king_attacks,
    pawn_attacks, bishop_attacks, rook_attacks,
};
use crate::bitboards::{BoardView, pidx};
use crate::types::{Color, Piece, MoveFlag, Move, lemma_piece_index, lemma_color_index};
use crate::position::{
    rights_after,
    Position, Undo, piece_at, attacked, king_square, lemma_has_bit, lemma_color_bit, make_view, piece_kind,
    ep_victim, castle_rook, move_fits, can_make, made, unmade, law_undo_restores,
};
use crate::bits::lemma_zero_iff_empty;

verus! {

broadcast use group_bit_lemmas, lemma_piece_index, lemma_color_index;

/// A piece of color `c` stands on `s`.
pub open spec fn own(v: BoardView, c: int, s: int) -> bool {
    v.mailbox[s] matches Some((cc, _)) && cc == c
}

pub open spec fn is_empty(v: BoardView, s: int) -> bool {
    v.mailbox[s] is None
}

/// A pawn may promote to these.
pub open spec fn promo_piece(p: Option<Piece>) -> bool {
    p == Some(Piece::Queen) || p == Some(Piece::Rook) || p == Some(Piece::Bishop) || p == Some(
        Piece::Knight,
    )
}

/// The last rank for pawns of color `c`.
pub open spec fn promo_rank(c: int, s: int) -> bool {
    if c == 0 {
        56 <= s < 64
    } else {
        0 <= s < 8
    }
}

/// The rank pawns of color `c` start from.
pub open spec fn start_rank(c: int, s: int) -> bool {
    if c == 0 {
        8 <= s < 16
    } else {
        48 <= s < 56
    }
}

/// The rank from which pawns of color `c` may capture en passant.
pub open spec fn ep_rank(c: int, s: int) -> bool {
    if c == 0 {
        32 <= s < 40
    } else {
        24 <= s < 32
    }
}

/// One rank forward for color `c`.
pub open spec fn forward(c: int) -> int {
    if c == 0 {
        8
    } else {
        -8
    }
}

/// A pawn's move onto `to`: promoting (to any of the four pieces) on the last rank,
/// with `promo_flag`, and otherwise plain, with `plain_flag`.
pub open spec fn pawn_landing(c: int, m: Move, plain_flag: MoveFlag, promo_flag: MoveFlag) -> bool {
    if promo_rank(c, m.to as int) {
        m.flag == promo_flag && promo_piece(m.promotion)
    } else {
        m.flag == plain_flag && m.promotion is None
    }
}

/// A single pawn push to an empty square.
pub open spec fn pawn_push(v: BoardView, c: int, m: Move) -> bool {
    let from = m.from as int;
    let to = m.to as int;
    &&& 0 <= from < 64
    &&& piece_at(v, from, c, 0)
    &&& to == from + forward(c)
    &&& 0 <= to < 64
    &&& is_empty(v, to)
    &&& pawn_landing(c, m, MoveFlag::Quiet, MoveFlag::Promotion)
}

/// A double pawn push from the starting rank over an empty square to an empty square.
pub open spec fn pawn_double(v: BoardView, c: int, m: Move) -> bool {
    let from = m.from as int;
    let to = m.to as int;
    &&& 0 <= from < 64
    &&& piece_at(v, from, c, 0)
    &&& start_rank(c, from)
    &&& is_empty(v, from + forward(c))
    &&& to == from + 2 * forward(c)
    &&& is_empty(v, to)
    &&& m.flag == MoveFlag::DoublePawnPush
    &&& m.promotion is None
}

/// A pawn capture of a piece of the other color.
pub open spec fn pawn_capture(v: BoardView, c: int, m: Move) -> bool {
    let from = m.from as int;
    let to = m.to as int;
    &&& 0 <= from < 64
    &&& piece_at(v, from, c, 0)
    &&& pawn_step(c, from, to)
    &&& own(v, 1 - c, to)
    &&& pawn_landing(c, m, MoveFlag::Capture, MoveFlag::PromotionCapture)
}

/// An en passant capture onto the en passant square `ep`.
pub open spec fn pawn_ep(v: BoardView, c: int, ep: Option<u8>, m: Move) -> bool {
    let from = m.from as int;
    &&& 0 <= from < 64
    &&& piece_at(v, from, c, 0)
    &&& ep == Some(m.to)
    &&& ep_rank(c, from)
    &&& pawn_step(c, from, m.to as int)
    &&& m.flag == MoveFlag::EnPassant
    &&& m.promotion is None
}

/// A piece of kind `k` (a knight up to a king) on `from` attacks `to` with the board occupied by `occ`.
pub open spec fn piece_reach(k: int, occ: u64, from: int, to: int) -> bool {
    if k == 1 {
        knight_step(from, to)
    } else if k == 2 {
        bishop_reach(occ, from, to)
    } else if k == 3 {
        rook_reach(occ, from, to)
    } else if k == 4 {
        bishop_reach(occ, from, to) || rook_reach(occ, from, to)
    } else {
        king_step(from, to)
    }
}

/// A move of a piece of kind `k` (a knight up to a king) to a square it
/// attacks that holds no piece of its own color; a capture when a piece of
/// the other color stands there.
pub open spec fn piece_move(v: BoardView, c: int, k: int, m: Move) -> bool {
    let from = m.from as int;
    let to = m.to as int;
    &&& 0 <= from < 64
    &&& piece_at(v, from, c, k)
    &&& piece_reach(k, v.all, from, to)
    &&& !own(v, c, to)
    &&& m.promotion is None
    &&& m.flag == (if own(v, 1 - c, to) {
        MoveFlag::Capture
    } else {
        MoveFlag::Quiet
    })
}

/// A castle of color `c`: the right is held, the king is not in check, a
/// rook of its own stands in the corner, the squares between are empty,
/// and the squares the king passes and lands on are not attacked.
pub open spec fn castle_move(v: BoardView, c: int, rights: u8, m: Move) -> bool {
    let base = if c == 0 {
        0int
    } else {
        56int
    };
    &&& !attacked(v, king_square(v, c), 1 - c)
    &&& m.from == base + 4
    &&& m.promotion is None
    &&& ((m.flag == MoveFlag::KingCastle && m.to == base + 6 && rights & (if c == 0 {
        1u8
    } else {
        4u8
    }) != 0 && piece_at(v, base + 7, c, 3) && is_empty(v, base + 5) && is_empty(v, base + 6)
        && !attacked(v, base + 5, 1 - c) && !attacked(v, base + 6, 1 - c)) || (m.flag
        == MoveFlag::QueenCastle && m.to == base + 2 && rights & (if c == 0 {
        2u8
    } else {
        8u8
    }) != 0 && piece_at(v, base, c, 3) && is_empty(v, base + 3) && is_empty(v, base + 2) && is_empty(
        v,
        base + 1,
    ) && !attacked(v, base + 3, 1 - c) && !attacked(v, base + 2, 1 - c)))
}

/// The pseudo-legal moves of a position: what the pieces of the side to
/// move may do by the rules of their movement, check aside.
pub open spec fn pseudo_legal(p: Position, m: Move) -> bool {
    pseudo_at(node_of(p), m)
}

/// What the moves of a position depend on: the board, the side to move
/// (its index), the en passant square and the castling rights.
pub struct Node {
    pub v: BoardView,
    pub c: int,
    pub ep: Option<u8>,
    pub cr: u8,
}

pub open spec fn node_of(p: Position) -> Node {
    Node { v: p.view(), c: p.side_to_move.index(), ep: p.en_passant, cr: p.castling_rights }
}

/// The pseudo-legal moves of a node.
pub open spec fn pseudo_at(n: Node, m: Move) -> bool {
    let v = n.v;
    let c = n.c;
    ||| pawn_push(v, c, m)
    ||| pawn_double(v, c, m)
    ||| pawn_capture(v, c, m)
    ||| pawn_ep(v, c, n.ep, m)
    ||| piece_move(v, c, 1, m)
    ||| piece_move(v, c, 2, m)
    ||| piece_move(v, c, 3, m)
    ||| piece_move(v, c, 4, m)
    ||| piece_move(v, c, 5, m)
    ||| castle_move(v, c, n.cr, m)
}

proof fn lemma_push_contains(s: Seq<Move>, m: Move, x: Move)
    ensures
        s.push(m).contains(x) <==> (s.contains(x) || x == m),
{
    if s.push(m).contains(x) {
        let i = choose|i: int| 0 <= i < s.push(m).len() && s.push(m)[i] == x;
        if i < s.len() {
            assert(s[i] == x);
        }
    }
    if s.contains(x) {
        let i = choose|i: int| 0 <= i < s.len() && s[i] == x;
        assert(s.push(m)[i] == x);
    }
    if x == m {
        assert(s.push(m)[s.len() as int] == x);
    }
}

proof fn lemma_push_nodup(s: Seq<Move>, m: Move)
    requires
        s.no_duplicates(),
        !s.contains(m),
    ensures
        s.push(m).no_duplicates(),
{
    assert forall|i: int, j: int| 0 <= i < s.push(m).len() && 0 <= j < s.push(m).len() && i != j implies s.push(m)[i] != s.push(m)[j] by {
        if i < s.len() && j < s.len() {
        } else if i < s.len() {
            assert(s.contains(s[i]));
        } else if j < s.len() {
            assert(s.contains(s[j]));
        }
    }
}

/// Pushes the move from `from` to each square of `targets`, lowest first;
/// a capture where `enemy` is set, quiet elsewhere.
fn push_targets(moves: &mut Vec<Move>, from: u8, targets: u64, enemy: u64)
    requires
        old(moves)@.no_duplicates(),
        forall|x: Move| #[trigger] old(moves)@.contains(x) ==> x.from != from,
    ensures
        final(moves)@.no_duplicates(),
        forall|m: Move| #[trigger] final(moves)@.contains(m) <==> (old(moves)@.contains(m) || (m.from
            == from && bit(targets, m.to as int) && m.promotion is None && m.flag == (if bit(
            enemy,
            m.to as int,
        ) {
            MoveFlag::Capture
        } else {
            MoveFlag::Quiet
        }))),
{
    let ghost start = moves@;
    let mut rem = targets;
    while rem != 0
        invariant
            forall|m: Move| #[trigger] moves@.contains(m) <==> (start.contains(m) || (m.from == from
                && bit(targets, m.to as int) && !bit(rem, m.to as int) && m.promotion is None
                && m.flag == (if bit(enemy, m.to as int) {
                MoveFlag::Capture
            } else {
                MoveFlag::Quiet
            }))),
            forall|t: int| #[trigger] bit(rem, t) ==> bit(targets, t),
            moves@.no_duplicates(),
            forall|x: Move| #[trigger] start.contains(x) ==> x.from != from,
        decreases rem,
    {
        let to = lowest_square(rem);
        proof {
            lemma_lowest_bit(rem);
        }
        let flag = if is_set(enemy, to) {
            MoveFlag::Capture
        } else {
            MoveFlag::Quiet
        };
        let mv = Move { from, to, promotion: None, flag };
        let ghost before = moves@;
        proof {
            if before.contains(mv) {
                assert(!start.contains(mv));
                assert(!bit(rem, to as int));
            }
            lemma_push_nodup(before, mv);
        }
        moves.push(mv);
        let ghost old_rem = rem;
        rem = rem & (rem - 1);
        proof {
            assert(rem < old_rem) by (bit_vector)
                requires
                    rem == old_rem & ((old_rem - 1) as u64),
                    old_rem != 0,
            ;
            assert forall|m: Move| #[trigger] moves@.contains(m) <==> (start.contains(m) || (m.from
                == from && bit(targets, m.to as int) && !bit(rem, m.to as int) && m.promotion is None
                && m.flag == (if bit(enemy, m.to as int) {
                MoveFlag::Capture
            } else {
                MoveFlag::Quiet
            }))) by {
                lemma_push_contains(before, mv, m);
            }
        }
    }
}


/// The moves of the pieces of kind `k` (a knight up to a king) of the side to move.
fn piece_moves(pos: &Position, moves: &mut Vec<Move>, k: usize)
    requires
        pos.wf(),
        1 <= k <= 5,
        old(moves)@.no_duplicates(),
        forall|x: Move| #[trigger] old(moves)@.contains(x) ==> !piece_at(pos.view(), x.from as int, pos.side_to_move.index(), k as int),
    ensures
        final(moves)@.no_duplicates(),
        forall|m: Move| #[trigger] final(moves)@.contains(m) <==> (old(moves)@.contains(m)
            || piece_move(pos.view(), pos.side_to_move.index(), k as int, m)),
{
    let ghost v = pos.view();
    let idx = pos.side_to_move.idx();
    let ghost c = idx as int;
    let our = pos.bitboards.color[idx];
    let enemy = pos.bitboards.color[1 - idx];
    let occ = pos.bitboards.all;
    let pieces = pos.bitboards.pieces[idx][k];
    proof {
        assert(v.pieces[pidx(c, k as int)] == pieces);
        assert(v.color[c] == our);
        assert(v.color[1 - c] == enemy);
    }
    let ghost start = moves@;
    let mut rem = pieces;
    while rem != 0
        invariant
            pos.wf(),
            v == pos.view(),
            c == pos.side_to_move.index(),
            0 <= c < 2,
            1 <= k <= 5,
            v.pieces[pidx(c, k as int)] == pieces,
            v.color[c] == our,
            v.color[1 - c] == enemy,
            v.all == occ,
            forall|t: int| #[trigger] bit(rem, t) ==> bit(pieces, t),
            forall|m: Move| #[trigger] moves@.contains(m) <==> (start.contains(m) || (piece_move(v, c, k as int, m) && !bit(rem, m.from as int))),
            moves@.no_duplicates(),
            forall|x: Move| #[trigger] start.contains(x) ==> !piece_at(v, x.from as int, c, k as int),
        decreases rem,
    {
        let from = lowest_square(rem);
        proof {
            lemma_lowest_bit(rem);
            lemma_has_bit(v, c, k as int, from as int);
            assert forall|x: Move| #[trigger] moves@.contains(x) implies x.from != from by {
                if start.contains(x) {
                } else {
                    assert(!bit(rem, x.from as int));
                }
            }
        }
        let att = if k == 1 {
            knight_attacks(from)
        } else if k == 2 {
            bishop_attacks(from, occ)
        } else if k == 3 {
            rook_attacks(from, occ)
        } else if k == 4 {
            bishop_attacks(from, occ) | rook_attacks(from, occ)
        } else {
            king_attacks(from)
        };
        let ghost before = moves@;
        push_targets(moves, from, att & !our, enemy);
        let ghost old_rem = rem;
        rem = rem & (rem - 1);
        proof {
            assert(rem < old_rem) by (bit_vector)
                requires
                    rem == old_rem & ((old_rem - 1) as u64),
                    old_rem != 0,
            ;
            assert forall|t: int| #[trigger] bit(att, t) <==> piece_reach(k as int, occ, from as int, t) by {}
            assert forall|m: Move| #[trigger] moves@.contains(m) <==> (start.contains(m) || (piece_move(v, c, k as int, m) && !bit(rem, m.from as int))) by {
                assert(bit(rem, m.from as int) <==> (bit(old_rem, m.from as int) && m.from as int != from as int));
                let to = m.to as int;
                if moves@.contains(m) && !before.contains(m) {
                    assert(m.from == from);
                    assert(bit(att & !our, to));
                    assert(m.from < 64);
                }
                if m.from == from {
                    assert(bit(pieces, from as int));
                    lemma_has_bit(v, c, k as int, from as int);
                    if 0 <= to < 64 {
                        lemma_color_bit(v, c, to);
                        lemma_color_bit(v, 1 - c, to);
                    }
                } else if 0 <= m.from < 64 {
                    lemma_has_bit(v, c, k as int, m.from as int);
                }
            }
        }
    }
}


/// Each promotion to a queen in `s` is followed by the same move promoting
/// to a rook, a bishop and a knight, in that order.
pub open spec fn promo_blocks(s: Seq<Move>) -> bool {
    forall|i: int|
        0 <= i < s.len() && #[trigger] s[i].promotion == Some(Piece::Queen) ==> {
            &&& i + 3 < s.len()
            &&& s[i + 1] == Move { promotion: Some(Piece::Rook), ..s[i] }
            &&& s[i + 2] == Move { promotion: Some(Piece::Bishop), ..s[i] }
            &&& s[i + 3] == Move { promotion: Some(Piece::Knight), ..s[i] }
        }
}

/// Appending a move that promotes to no queen keeps the blocks.
proof fn lemma_blocks_push(s: Seq<Move>, m: Move)
    requires
        promo_blocks(s),
        m.promotion != Some(Piece::Queen),
    ensures
        promo_blocks(s.push(m)),
{
    let t = s.push(m);
    assert forall|i: int| 0 <= i < t.len() && #[trigger] t[i].promotion == Some(Piece::Queen) implies {
        &&& i + 3 < t.len()
        &&& t[i + 1] == Move { promotion: Some(Piece::Rook), ..t[i] }
        &&& t[i + 2] == Move { promotion: Some(Piece::Bishop), ..t[i] }
        &&& t[i + 3] == Move { promotion: Some(Piece::Knight), ..t[i] }
    } by {
        assert(i < s.len());
        assert(s[i].promotion == Some(Piece::Queen));
    }
}

/// Pushes the pawn move from `from` to `to`: the four promotions (queen,
/// rook, bishop, knight) flagged `promo_flag` on the last rank, else one
/// move flagged `plain_flag`.
fn push_pawn_landing(moves: &mut Vec<Move>, from: u8, to: u8, color_idx: usize, plain_flag: MoveFlag, promo_flag: MoveFlag)
    requires
        color_idx < 2,
        to < 64,
        plain_flag != promo_flag,
        old(moves)@.no_duplicates(),
        forall|x: Move| #[trigger] old(moves)@.contains(x) ==> !(x.from == from && x.to == to && (x.flag == plain_flag || x.flag == promo_flag)),
    ensures
        final(moves)@.no_duplicates(),
        forall|m: Move| #[trigger] final(moves)@.contains(m) <==> (old(moves)@.contains(m) || (m.from
            == from && m.to == to && pawn_landing(color_idx as int, m, plain_flag, promo_flag))),
        promo_blocks(old(moves)@) ==> promo_blocks(final(moves)@),
{
    let promotion_rank = if color_idx == 0 {
        56 <= to && to < 64
    } else {
        to < 8
    };
    let ghost s0 = moves@;
    if promotion_rank {
        let m1 = Move { from, to, promotion: Some(Piece::Queen), flag: promo_flag };
        let m2 = Move { from, to, promotion: Some(Piece::Rook), flag: promo_flag };
        let m3 = Move { from, to, promotion: Some(Piece::Bishop), flag: promo_flag };
        let m4 = Move { from, to, promotion: Some(Piece::Knight), flag: promo_flag };
        proof {
            lemma_push_nodup(s0, m1);
        }
        moves.push(m1);
        let ghost s1 = moves@;
        proof {
            lemma_push_contains(s0, m1, m2);
            lemma_push_nodup(s1, m2);
        }
        moves.push(m2);
        let ghost s2 = moves@;
        proof {
            lemma_push_contains(s0, m1, m3);
            lemma_push_contains(s1, m2, m3);
            lemma_push_nodup(s2, m3);
        }
        moves.push(m3);
        let ghost s3 = moves@;
        proof {
            lemma_push_contains(s0, m1, m4);
            lemma_push_contains(s1, m2, m4);
            lemma_push_contains(s2, m3, m4);
            lemma_push_nodup(s3, m4);
        }
        moves.push(m4);
        proof {
            if promo_blocks(s0) {
                let t = moves@;
                assert(t.len() == s0.len() + 4);
                let n = s0.len() as int;
                assert(t[n] == m1 && t[n + 1] == m2 && t[n + 2] == m3 && t[n + 3] == m4);
                assert forall|i: int| 0 <= i < t.len() && #[trigger] t[i].promotion == Some(Piece::Queen) implies {
                    &&& i + 3 < t.len()
                    &&& t[i + 1] == Move { promotion: Some(Piece::Rook), ..t[i] }
                    &&& t[i + 2] == Move { promotion: Some(Piece::Bishop), ..t[i] }
                    &&& t[i + 3] == Move { promotion: Some(Piece::Knight), ..t[i] }
                } by {
                    if i < s0.len() {
                        assert(t[i] == s0[i]);
                        assert(s0[i].promotion == Some(Piece::Queen));
                        if i + 1 < s0.len() { assert(t[i + 1] == s0[i + 1]); }
                        if i + 2 < s0.len() { assert(t[i + 2] == s0[i + 2]); }
                        if i + 3 < s0.len() { assert(t[i + 3] == s0[i + 3]); }
                    } else {
                        assert(i == s0.len());
                    }
                }
            }
            assert forall|m: Move| #[trigger] moves@.contains(m) <==> (s0.contains(m) || (m.from
                == from && m.to == to && pawn_landing(color_idx as int, m, plain_flag, promo_flag))) by {
                lemma_push_contains(s0, m1, m);
                lemma_push_contains(s1, m2, m);
                lemma_push_contains(s2, m3, m);
                lemma_push_contains(s3, m4, m);
            }
        }
    } else {
        let m1 = Move { from, to, promotion: None, flag: plain_flag };
        proof {
            lemma_push_nodup(s0, m1);
        }
        moves.push(m1);
        proof {
            if promo_blocks(s0) {
                lemma_blocks_push(s0, m1);
            }
            assert forall|m: Move| #[trigger] moves@.contains(m) <==> (s0.contains(m) || (m.from
                == from && m.to == to && pawn_landing(color_idx as int, m, plain_flag, promo_flag))) by {
                lemma_push_contains(s0, m1, m);
            }
        }
    }
}

/// The pawn moves of the side to move: single pushes, double pushes,
/// captures and en passant, in this order, each promotion as four moves in
/// a row (queen, rook, bishop, knight).
fn pawn_moves(pos: &Position, moves: &mut Vec<Move>)
    requires
        pos.wf(),
        old(moves)@ == Seq::<Move>::empty(),
    ensures
        final(moves)@.no_duplicates(),
        forall|m: Move| #[trigger] final(moves)@.contains(m) <==> (old(moves)@.contains(m)
            || pawn_push(pos.view(), pos.side_to_move.index(), m)
            || pawn_double(pos.view(), pos.side_to_move.index(), m)
            || pawn_capture(pos.view(), pos.side_to_move.index(), m)
            || pawn_ep(pos.view(), pos.side_to_move.index(), pos.en_passant, m)),
        promo_blocks(final(moves)@),
{
    let ghost v = pos.view();
    let idx = pos.side_to_move.idx();
    let ghost c = idx as int;
    let enemy = pos.bitboards.color[1 - idx];
    let occ = pos.bitboards.all;
    let pawns = pos.bitboards.pieces[idx][0];
    proof {
        assert(v.pieces[pidx(c, 0)] == pawns);
        assert(v.color[1 - c] == enemy);
    }
    let ghost s0 = moves@;
    // single pushes
    let mut rem = pawns;
    while rem != 0
        invariant
            pos.wf(),
            v == pos.view(),
            c == idx,
            idx < 2,
            v.pieces[pidx(c, 0)] == pawns,
            v.all == occ,
            forall|t: int| #[trigger] bit(rem, t) ==> bit(pawns, t),
            forall|m: Move| #[trigger] moves@.contains(m) <==> (s0.contains(m) || (pawn_push(v, c, m) && !bit(rem, m.from as int))),
            s0 == Seq::<Move>::empty(),
            moves@.no_duplicates(),
            promo_blocks(moves@),
        decreases rem,
    {
        let from = lowest_square(rem);
        proof {
            lemma_lowest_bit(rem);
            lemma_has_bit(v, c, 0, from as int);
            assert forall|x: Move| #[trigger] moves@.contains(x) implies x.from != from by {
                assert(!s0.contains(x));
                assert(!bit(rem, x.from as int));
            }
        }
        let ghost before = moves@;
        let to_i: i32 = if idx == 0 {
            from as i32 + 8
        } else {
            from as i32 - 8
        };
        if 0 <= to_i && to_i < 64 {
            let to = to_i as u8;
            if !is_set(occ, to) {
                push_pawn_landing(moves, from, to, idx, MoveFlag::Quiet, MoveFlag::Promotion);
            }
        }
        let ghost old_rem = rem;
        rem = rem & (rem - 1);
        proof {
            assert(rem < old_rem) by (bit_vector)
                requires
                    rem == old_rem & ((old_rem - 1) as u64),
                    old_rem != 0,
            ;
            assert forall|m: Move| #[trigger] moves@.contains(m) <==> (s0.contains(m) || (pawn_push(v, c, m) && !bit(rem, m.from as int))) by {
                assert(bit(rem, m.from as int) <==> (bit(old_rem, m.from as int) && m.from as int != from as int));
                if m.from == from {
                    if 0 <= to_i < 64 {
                        lemma_color_bit(v, c, to_i as int);
                    }
                } else if 0 <= m.from < 64 {
                    lemma_has_bit(v, c, 0, m.from as int);
                }
            }
        }
    }
    let ghost s1 = moves@;
    // double pushes
    let mut rem = pawns;
    while rem != 0
        invariant
            pos.wf(),
            v == pos.view(),
            c == idx,
            idx < 2,
            v.pieces[pidx(c, 0)] == pawns,
            v.all == occ,
            forall|t: int| #[trigger] bit(rem, t) ==> bit(pawns, t),
            forall|m: Move| #[trigger] moves@.contains(m) <==> (s1.contains(m) || (pawn_double(v, c, m) && !bit(rem, m.from as int))),
            forall|x: Move| #[trigger] s1.contains(x) ==> (x.flag == MoveFlag::Quiet || x.flag == MoveFlag::Promotion),
            moves@.no_duplicates(),
            promo_blocks(moves@),
        decreases rem,
    {
        let from = lowest_square(rem);
        proof {
            lemma_lowest_bit(rem);
            lemma_has_bit(v, c, 0, from as int);
        }
        let ghost before = moves@;
        let on_start = if idx == 0 {
            8 <= from && from < 16
        } else {
            48 <= from && from < 56
        };
        if on_start {
            let (mid, to) = if idx == 0 {
                (from + 8, from + 16)
            } else {
                (from - 8, from - 16)
            };
            if !is_set(occ, mid) && !is_set(occ, to) {
                let mv = Move { from, to, promotion: None, flag: MoveFlag::DoublePawnPush };
                proof {
                    if before.contains(mv) {
                        assert(!s1.contains(mv));
                        assert(!bit(rem, from as int));
                    }
                    lemma_push_nodup(before, mv);
                    lemma_blocks_push(before, mv);
                }
                moves.push(mv);
                proof {
                    assert forall|m: Move| #[trigger] moves@.contains(m) <==> (before.contains(m) || m == mv) by {
                        lemma_push_contains(before, mv, m);
                    }
                    lemma_color_bit(v, c, mid as int);
                    lemma_color_bit(v, c, to as int);
                }
            } else {
                proof {
                    lemma_color_bit(v, c, mid as int);
                    lemma_color_bit(v, c, to as int);
                }
            }
        }
        let ghost old_rem = rem;
        rem = rem & (rem - 1);
        proof {
            assert(rem < old_rem) by (bit_vector)
                requires
                    rem == old_rem & ((old_rem - 1) as u64),
                    old_rem != 0,
            ;
            assert forall|m: Move| #[trigger] moves@.contains(m) <==> (s1.contains(m) || (pawn_double(v, c, m) && !bit(rem, m.from as int))) by {
                assert(bit(rem, m.from as int) <==> (bit(old_rem, m.from as int) && m.from as int != from as int));
                if m.from == from {
                } else if 0 <= m.from < 64 {
                    lemma_has_bit(v, c, 0, m.from as int);
                }
            }
        }
    }
    let ghost s2 = moves@;
    // captures
    let mut rem = pawns;
    while rem != 0
        invariant
            pos.wf(),
            v == pos.view(),
            c == idx,
            idx < 2,
            v.pieces[pidx(c, 0)] == pawns,
            v.color[1 - c] == enemy,
            forall|t: int| #[trigger] bit(rem, t) ==> bit(pawns, t),
            forall|m: Move| #[trigger] moves@.contains(m) <==> (s2.contains(m) || (pawn_capture(v, c, m) && !bit(rem, m.from as int))),
            forall|x: Move| #[trigger] s2.contains(x) ==> (x.flag == MoveFlag::Quiet || x.flag == MoveFlag::Promotion || x.flag == MoveFlag::DoublePawnPush),
            moves@.no_duplicates(),
            promo_blocks(moves@),
        decreases rem,
    {
        let from = lowest_square(rem);
        proof {
            lemma_lowest_bit(rem);
            lemma_has_bit(v, c, 0, from as int);
        }
        let ghost before = moves@;
        proof {
            assert forall|x: Move| #[trigger] before.contains(x) implies !(x.from == from && (x.flag == MoveFlag::Capture || x.flag == MoveFlag::PromotionCapture)) by {
                if !s2.contains(x) {
                    assert(!bit(rem, x.from as int));
                }
            }
        }
        let captures = pawn_attacks(idx, from) & enemy;
        let mut trem = captures;
        while trem != 0
            invariant
                pos.wf(),
                v == pos.view(),
                c == idx,
                idx < 2,
                from < 64,
                piece_at(v, from as int, c, 0),
                v.color[1 - c] == enemy,
                forall|t: int| #[trigger] bit(trem, t) ==> bit(captures, t),
                forall|t: int| #[trigger] bit(captures, t) <==> (pawn_step(c, from as int, t) && bit(enemy, t)),
                forall|m: Move| #[trigger] moves@.contains(m) <==> (before.contains(m) || (m.from == from && bit(captures, m.to as int) && !bit(trem, m.to as int) && pawn_landing(c, m, MoveFlag::Capture, MoveFlag::PromotionCapture))),
                forall|x: Move| #[trigger] before.contains(x) ==> !(x.from == from && (x.flag == MoveFlag::Capture || x.flag == MoveFlag::PromotionCapture)),
                moves@.no_duplicates(),
            promo_blocks(moves@),
            decreases trem,
        {
            let to = lowest_square(trem);
            proof {
                lemma_lowest_bit(trem);
                assert forall|x: Move| #[trigger] moves@.contains(x) implies !(x.from == from && x.to == to && (x.flag == MoveFlag::Capture || x.flag == MoveFlag::PromotionCapture)) by {
                    if !before.contains(x) && x.from == from {
                        assert(!bit(trem, x.to as int));
                    }
                }
            }
            push_pawn_landing(moves, from, to, idx, MoveFlag::Capture, MoveFlag::PromotionCapture);
            let ghost old_trem = trem;
            trem = trem & (trem - 1);
            proof {
                assert(trem < old_trem) by (bit_vector)
                    requires
                        trem == old_trem & ((old_trem - 1) as u64),
                        old_trem != 0,
                ;
            }
        }
        let ghost old_rem = rem;
        rem = rem & (rem - 1);
        proof {
            assert(rem < old_rem) by (bit_vector)
                requires
                    rem == old_rem & ((old_rem - 1) as u64),
                    old_rem != 0,
            ;
            assert forall|m: Move| #[trigger] moves@.contains(m) <==> (s2.contains(m) || (pawn_capture(v, c, m) && !bit(rem, m.from as int))) by {
                assert(bit(rem, m.from as int) <==> (bit(old_rem, m.from as int) && m.from as int != from as int));
                if m.from == from {
                    if 0 <= m.to < 64 {
                        lemma_color_bit(v, 1 - c, m.to as int);
                    }
                } else if 0 <= m.from < 64 {
                    lemma_has_bit(v, c, 0, m.from as int);
                }
            }
        }
    }
    let ghost s3 = moves@;
    // en passant
    match pos.en_passant {
        Some(ep_sq) => {
            let mut rem = pawns;
            while rem != 0
                invariant
                    pos.wf(),
                    v == pos.view(),
                    c == idx,
                    idx < 2,
                    pos.en_passant == Some(ep_sq),
                    ep_sq < 64,
                    v.pieces[pidx(c, 0)] == pawns,
                    forall|t: int| #[trigger] bit(rem, t) ==> bit(pawns, t),
                    forall|m: Move| #[trigger] moves@.contains(m) <==> (s3.contains(m) || (pawn_ep(v, c, pos.en_passant, m) && !bit(rem, m.from as int))),
                    forall|x: Move| #[trigger] s3.contains(x) ==> x.flag != MoveFlag::EnPassant,
                    moves@.no_duplicates(),
            promo_blocks(moves@),
                decreases rem,
            {
                let from = lowest_square(rem);
                proof {
                    lemma_lowest_bit(rem);
                    lemma_has_bit(v, c, 0, from as int);
                }
                let ghost before = moves@;
                let candidate = if idx == 0 {
                    32 <= from && from < 40
                } else {
                    24 <= from && from < 32
                };
                if candidate && is_set(pawn_attacks(idx, from), ep_sq) {
                    let mv = Move { from, to: ep_sq, promotion: None, flag: MoveFlag::EnPassant };
                    proof {
                        if before.contains(mv) {
                            assert(!s3.contains(mv));
                            assert(!bit(rem, from as int));
                        }
                        lemma_push_nodup(before, mv);
                    lemma_blocks_push(before, mv);
                    }
                    moves.push(mv);
                    proof {
                        assert forall|m: Move| #[trigger] moves@.contains(m) <==> (before.contains(m) || m == mv) by {
                            lemma_push_contains(before, mv, m);
                        }
                    }
                }
                let ghost old_rem = rem;
                rem = rem & (rem - 1);
                proof {
                    assert(rem < old_rem) by (bit_vector)
                        requires
                            rem == old_rem & ((old_rem - 1) as u64),
                            old_rem != 0,
                    ;
                    assert forall|m: Move| #[trigger] moves@.contains(m) <==> (s3.contains(m) || (pawn_ep(v, c, pos.en_passant, m) && !bit(rem, m.from as int))) by {
                        assert(bit(rem, m.from as int) <==> (bit(old_rem, m.from as int) && m.from as int != from as int));
                        if m.from == from {
                        } else if 0 <= m.from < 64 {
                            lemma_has_bit(v, c, 0, m.from as int);
                        }
                    }
                }
            }
        },
        None => {},
    }
    proof {
        assert forall|m: Move| #[trigger] moves@.contains(m) <==> (s0.contains(m)
            || pawn_push(v, c, m) || pawn_double(v, c, m) || pawn_capture(v, c, m)
            || pawn_ep(v, c, pos.en_passant, m)) by {
            if 0 <= m.from < 64 {
                lemma_has_bit(v, c, 0, m.from as int);
            }
        }
    }
}


/// The rook of color `c` stands on `s`, by what `piece_on` reports.
fn own_rook_on(pos: &Position, s: u8) -> (r: bool)
    requires
        pos.wf(),
        s < 64,
    ensures
        r == piece_at(pos.view(), s as int, pos.side_to_move.index(), 3),
{
    proof {
        assert(crate::bitboards::cell_ok(pos.view().mailbox[s as int]));
    }
    match pos.piece_on(s) {
        Some((c, Piece::Rook)) => c == pos.side_to_move,
        _ => false,
    }
}

/// The castles of the side to move: king side first, then queen side.
fn castle_moves(pos: &Position, moves: &mut Vec<Move>)
    requires
        pos.wf(),
        pos.view().pieces[pidx(pos.side_to_move.index(), 5)] != 0,
        old(moves)@.no_duplicates(),
        forall|x: Move| #[trigger] old(moves)@.contains(x) ==> x.flag != MoveFlag::KingCastle && x.flag != MoveFlag::QueenCastle,
    ensures
        final(moves)@.no_duplicates(),
        forall|m: Move| #[trigger] final(moves)@.contains(m) <==> (old(moves)@.contains(m)
            || castle_move(pos.view(), pos.side_to_move.index(), pos.castling_rights, m)),
{
    let ghost v = pos.view();
    let side = pos.side_to_move;
    let idx = side.idx();
    let ghost c = idx as int;
    let enemy_color = side.opposite();
    if pos.is_in_check(side) {
        return;
    }
    let base: u8 = if idx == 0 {
        0
    } else {
        56
    };
    let e = base + 4;
    let ghost s0 = moves@;
    let king_side_mask: u8 = if idx == 0 {
        0b0001
    } else {
        0b0100
    };
    if pos.castling_rights & king_side_mask != 0 {
        let f = base + 5;
        let g = base + 6;
        let rook_ok = own_rook_on(pos, base + 7);
        if rook_ok && pos.piece_on(f).is_none() && pos.piece_on(g).is_none()
            && !pos.square_under_attack(f, enemy_color) && !pos.square_under_attack(g, enemy_color) {
            let mv = Move { from: e, to: g, promotion: None, flag: MoveFlag::KingCastle };
            let ghost before = moves@;
            proof {
                lemma_push_nodup(before, mv);
            }
            moves.push(mv);
            proof {
                assert forall|m: Move| #[trigger] moves@.contains(m) <==> (before.contains(m) || m == mv) by {
                    lemma_push_contains(before, mv, m);
                }
            }
        }
    }
    let ghost s1 = moves@;
    let queen_side_mask: u8 = if idx == 0 {
        0b0010
    } else {
        0b1000
    };
    if pos.castling_rights & queen_side_mask != 0 {
        let d = base + 3;
        let cc = base + 2;
        let b = base + 1;
        let rook_ok = own_rook_on(pos, base);
        if rook_ok && pos.piece_on(d).is_none() && pos.piece_on(cc).is_none() && pos.piece_on(b).is_none()
            && !pos.square_under_attack(d, enemy_color) && !pos.square_under_attack(cc, enemy_color) {
            let mv = Move { from: e, to: cc, promotion: None, flag: MoveFlag::QueenCastle };
            let ghost before = moves@;
            proof {
                if before.contains(mv) {
                    assert(!s0.contains(mv));
                }
                lemma_push_nodup(before, mv);
            }
            moves.push(mv);
            proof {
                assert forall|m: Move| #[trigger] moves@.contains(m) <==> (before.contains(m) || m == mv) by {
                    lemma_push_contains(before, mv, m);
                }
            }
        }
    }
}

impl Position {
    /// The pseudo-legal moves: pawn moves, then knight, bishop, rook, queen
    /// and king moves, then castles. Panics when the side to move has no king.
    pub fn get_pseudo_legal_moves(&self) -> (moves: Vec<Move>)
        requires
            self.wf(),
            self.view().pieces[pidx(self.side_to_move.index(), 5)] != 0,
        ensures
            forall|m: Move| #[trigger] moves@.contains(m) <==> pseudo_legal(*self, m),
            moves@.no_duplicates(),
    {
        let mut moves: Vec<Move> = Vec::new();
        pawn_moves(self, &mut moves);
        piece_moves(self, &mut moves, 1);
        piece_moves(self, &mut moves, 2);
        piece_moves(self, &mut moves, 3);
        piece_moves(self, &mut moves, 4);
        piece_moves(self, &mut moves, 5);
        castle_moves(self, &mut moves);
        proof {
            assert forall|m: Move| #[trigger] moves@.contains(m) <==> pseudo_legal(*self, m) by {
                assert(!Seq::<Move>::empty().contains(m));
            }
        }
        moves
    }
}


/// The en passant square, if any, is empty, with a pawn of the side not to
/// move just past it: as a double push leaves it.
pub open spec fn ep_ok(p: Position) -> bool {
    let v = p.view();
    let c = p.side_to_move.index();
    p.en_passant matches Some(e) ==> {
        &&& e < 64
        &&& is_empty(v, e as int)
        &&& 0 <= ep_victim(c, e as int) < 64
        &&& v.mailbox[ep_victim(c, e as int)] == Some(((1 - c) as u8, 0u8))
    }
}

/// A castling right is only held while the king of its color stands on its square.
pub open spec fn castle_ok(p: Position) -> bool {
    let v = p.view();
    &&& (p.castling_rights & 0b0011 != 0 ==> piece_at(v, 4, 0, 5))
    &&& (p.castling_rights & 0b1100 != 0 ==> piece_at(v, 60, 1, 5))
}

impl Position {
    /// A position the move generator and `make_move` can work with: the
    /// boards agree, the side to move has a king, the en passant square
    /// and the castling rights are consistent with the board.
    pub open spec fn valid(&self) -> bool {
        &&& self.wf()
        &&& self.view().pieces[pidx(self.side_to_move.index(), 5)] != 0
        &&& ep_ok(*self)
        &&& castle_ok(*self)
    }
}

/// The boards after the side to move of `p` makes `m`.
pub open spec fn after_view(p: Position, m: Move) -> BoardView {
    after_at(node_of(p), m)
}

pub open spec fn after_at(n: Node, m: Move) -> BoardView {
    make_view(
        n.v,
        m,
        n.c,
        piece_kind(n.v.mailbox[m.from as int]).unwrap(),
        piece_kind(n.v.mailbox[m.to as int]),
    )
}

/// A legal move: pseudo-legal, and not leaving the mover's king attacked.
pub open spec fn legal(p: Position, m: Move) -> bool {
    legal_at(node_of(p), m)
}

pub open spec fn legal_at(n: Node, m: Move) -> bool {
    &&& pseudo_at(n, m)
    &&& !attacked(after_at(n, m), king_square(after_at(n, m), n.c), 1 - n.c)
}

/// A pseudo-legal move of a valid position fits the board and can be made.
pub proof fn lemma_pseudo_fits(p: Position, m: Move)
    requires
        p.valid(),
        pseudo_legal(p, m),
    ensures
        move_fits(p.view(), p.side_to_move.index(), m),
        m.from < 64,
        m.to < 64,
        m.flag.is_promo() ==> m.promotion is Some,
        p.halfmove_clock < u32::MAX ==> can_make(p.view(), p.side_to_move.index(), m, p.halfmove_clock),
{
    let v = p.view();
    let c = p.side_to_move.index();
    if piece_move(v, c, 1, m) || piece_move(v, c, 2, m) || piece_move(v, c, 3, m) || piece_move(v, c, 4, m) || piece_move(v, c, 5, m) {
        crate::attacks::lemma_reach_range(v.all, m.from as int, m.to as int);
        assert(m.to < 64);
    }
    if castle_move(v, c, p.castling_rights, m) {
        if c == 0 {
            if m.flag == MoveFlag::KingCastle {
                let cr = p.castling_rights;
                assert(cr & 1u8 != 0 ==> cr & 0b0011u8 != 0) by (bit_vector);
            } else {
                let cr = p.castling_rights;
                assert(cr & 2u8 != 0 ==> cr & 0b0011u8 != 0) by (bit_vector);
            }
        } else {
            if m.flag == MoveFlag::KingCastle {
                let cr = p.castling_rights;
                assert(cr & 4u8 != 0 ==> cr & 0b1100u8 != 0) by (bit_vector);
            } else {
                let cr = p.castling_rights;
                assert(cr & 8u8 != 0 ==> cr & 0b1100u8 != 0) by (bit_vector);
            }
        }
    }
}

/// A move that fits leaves the mover's king on the board.
pub proof fn lemma_king_stays(v: BoardView, c: int, m: Move)
    requires
        v.wf(),
        move_fits(v, c, m),
        m.from < 64,
        m.to < 64,
        m.flag.is_promo() ==> m.promotion is Some,
        v.pieces[pidx(c, 5)] != 0,
    ensures
        make_view(v, m, c, piece_kind(v.mailbox[m.from as int]).unwrap(), piece_kind(v.mailbox[m.to as int])).pieces[pidx(c, 5)] != 0,
{
    let moved = piece_kind(v.mailbox[m.from as int]).unwrap();
    let cap = piece_kind(v.mailbox[m.to as int]);
    let w = make_view(v, m, c, moved, cap);
    crate::position::lemma_make_wf(v, m, c, moved, cap);
    lemma_zero_iff_empty(v.pieces[pidx(c, 5)]);
    let k = choose|t: int| 0 <= t < 64 && bit(v.pieces[pidx(c, 5)], t);
    lemma_has_bit(v, c, 5, k);
    if moved == 5 && !m.flag.is_promo() {
        lemma_has_bit(w, c, 5, m.to as int);
    } else {
        assert(k != m.from);
        lemma_has_bit(w, c, 5, k);
    }
    lemma_zero_iff_empty(w.pieces[pidx(c, 5)]);
}

impl Position {
    /// The legal moves, in the order of the pseudo-legal ones. Each is made
    /// and taken back to see whether it leaves the king in check, which
    /// leaves the position as it was.
    pub fn get_legal_moves(&mut self) -> (legal_moves: Vec<Move>)
        requires
            old(self).valid(),
            old(self).halfmove_clock < u32::MAX,
        ensures
            forall|m: Move| #[trigger] legal_moves@.contains(m) <==> legal(*old(self), m),
            legal_moves@.no_duplicates(),
            final(self).view() == old(self).view(),
            final(self).valid(),
            final(self).side_to_move == old(self).side_to_move,
            final(self).castling_rights == old(self).castling_rights,
            final(self).en_passant == old(self).en_passant,
            final(self).halfmove_clock == old(self).halfmove_clock,
            final(self).zobrist_keys == old(self).zobrist_keys,
            final(self).fullmove_count == old(self).fullmove_count,
    {
        let ghost p0 = *self;
        let pseudo = self.get_pseudo_legal_moves();
        let mut legal_moves: Vec<Move> = Vec::new();
        let side = self.side_to_move;
        let mut i: usize = 0;
        while i < pseudo.len()
            invariant
                i <= pseudo.len(),
                p0.valid(),
                p0.halfmove_clock < u32::MAX,
                side == p0.side_to_move,
                self.view() == p0.view(),
                self.side_to_move == p0.side_to_move,
                self.castling_rights == p0.castling_rights,
                self.en_passant == p0.en_passant,
                self.halfmove_clock == p0.halfmove_clock,
                self.zobrist_keys == p0.zobrist_keys,
                self.fullmove_count == p0.fullmove_count,
                forall|m: Move| #[trigger] pseudo@.contains(m) <==> pseudo_legal(p0, m),
                forall|m: Move| #[trigger] legal_moves@.contains(m) <==> (pseudo@.take(i as int).contains(m) && legal(p0, m)),
                pseudo@.no_duplicates(),
                legal_moves@.no_duplicates(),
            decreases pseudo.len() - i,
        {
            let mv = pseudo[i];
            let ghost before = *self;
            proof {
                assert(pseudo@.contains(mv));
                assert(before.valid());
                lemma_pseudo_fits(before, mv);
                lemma_king_stays(before.view(), before.side_to_move.index(), mv);
            }
            let undo = self.make_move(mv);
            let ghost mid = *self;
            let in_check = self.is_in_check(side);
            let ghost old_legal = legal_moves@;
            proof {
                if pseudo@.take(i as int).contains(mv) {
                    let j = choose|j: int| 0 <= j < pseudo@.take(i as int).len() && pseudo@.take(i as int)[j] == mv;
                    assert(pseudo@[j] == pseudo@[i as int]);
                }
            }
            if !in_check {
                proof {
                    lemma_push_nodup(old_legal, mv);
                }
                legal_moves.push(mv);
            }
            self.undo_move(mv, undo);
            proof {
                law_undo_restores(before, mv, mid, undo, *self);
                assert(after_view(p0, mv) == mid.view());
                assert forall|m: Move| #[trigger] legal_moves@.contains(m) <==> (pseudo@.take(i + 1).contains(m) && legal(p0, m)) by {
                    if !in_check {
                        lemma_push_contains(old_legal, mv, m);
                    }
                    lemma_take_contains(pseudo@, i as int, m);
                }
            }
            i = i + 1;
        }
        proof {
            assert(pseudo@.take(pseudo@.len() as int) =~= pseudo@);
        }
        legal_moves
    }
}

proof fn lemma_take_contains(s: Seq<Move>, i: int, m: Move)
    requires
        0 <= i < s.len(),
    ensures
        s.take(i + 1).contains(m) <==> (s.take(i).contains(m) || s[i] == m),
{
    if s.take(i + 1).contains(m) {
        let j = choose|j: int| 0 <= j < s.take(i + 1).len() && #[trigger] s.take(i + 1)[j] == m;
        if j < i {
            assert(s.take(i)[j] == m);
        }
    }
    if s.take(i).contains(m) {
        let j = choose|j: int| 0 <= j < s.take(i).len() && #[trigger] s.take(i)[j] == m;
        assert(s.take(i + 1)[j] == m);
    }
    if s[i] == m {
        assert(s.take(i + 1)[i] == m);
    }
}


/// Color `c` has exactly one king, on `k`.
pub open spec fn king_on(v: BoardView, c: int, k: int) -> bool {
    &&& 0 <= k < 64
    &&& forall|s: int| 0 <= s < 64 ==> (#[trigger] piece_at(v, s, c, 5) <==> s == k)
}

/// Color `c` has exactly one king.
pub open spec fn one_king(v: BoardView, c: int) -> bool {
    exists|k: int| #[trigger] king_on(v, c, k)
}

/// A position that can arise in a game: valid, one king of each color,
/// and the side not to move not in check.
pub open spec fn sound(p: Position) -> bool {
    let v = p.view();
    let c = p.side_to_move.index();
    &&& p.valid()
    &&& one_king(v, 0)
    &&& one_king(v, 1)
    &&& !attacked(v, king_square(v, 1 - c), c)
}

/// Where a color has one king, its king square is that king's.
pub proof fn lemma_king_square(v: BoardView, c: int, k: int)
    requires
        v.wf(),
        0 <= c < 2,
        king_on(v, c, k),
    ensures
        king_square(v, c) == k,
        v.pieces[pidx(c, 5)] != 0,
{
    let b = v.pieces[pidx(c, 5)];
    lemma_has_bit(v, c, 5, k);
    assert(bit(b, k));
    lemma_zero_iff_empty(b);
    lemma_lowest_bit(b);
    let z = vstd::std_specs::bits::u64_trailing_zeros(b) as int;
    lemma_has_bit(v, c, 5, z);
    if z < k {
    } else if z > k {
        assert(!bit(b, k));
    }
}

/// A pseudo-legal move onto a piece of the other color captures with an
/// attack: its destination is attacked by the mover.
pub proof fn lemma_capture_attacks(p: Position, m: Move)
    requires
        p.valid(),
        pseudo_legal(p, m),
        own(p.view(), 1 - p.side_to_move.index(), m.to as int),
    ensures
        attacked(p.view(), m.to as int, p.side_to_move.index()),
{
    let v = p.view();
    let c = p.side_to_move.index();
    let from = m.from as int;
    let to = m.to as int;
    if pawn_capture(v, c, m) {
        assert(piece_at(v, from, c, 0) && pawn_step(c, from, to));
    } else if piece_move(v, c, 1, m) {
        assert(knight_step(to, from));
    } else if piece_move(v, c, 2, m) {
        lemma_bishop_symmetric(v.all, from, to);
    } else if piece_move(v, c, 3, m) {
        lemma_rook_symmetric(v.all, from, to);
    } else if piece_move(v, c, 4, m) {
        if bishop_reach(v.all, from, to) {
            lemma_bishop_symmetric(v.all, from, to);
        } else {
            lemma_rook_symmetric(v.all, from, to);
        }
    } else if piece_move(v, c, 5, m) {
        assert(king_step(to, from));
    } else if pawn_ep(v, c, p.en_passant, m) {
        assert(false);
    }
}


proof fn lemma_and_keeps(x: u8, k: u8)
    ensures
        (x & k) & 3u8 != 0 ==> x & 3u8 != 0,
        (x & k) & 12u8 != 0 ==> x & 12u8 != 0,
        x & 3u8 == 0 ==> (x & k) & 3u8 == 0,
        x & 12u8 == 0 ==> (x & k) & 12u8 == 0,
        (x & !0b0011u8) & 3u8 == 0,
        (x & !0b1100u8) & 12u8 == 0,
{
    assert((x & k) & 3u8 != 0 ==> x & 3u8 != 0) by (bit_vector);
    assert((x & k) & 12u8 != 0 ==> x & 12u8 != 0) by (bit_vector);
    assert(x & 3u8 == 0 ==> (x & k) & 3u8 == 0) by (bit_vector);
    assert(x & 12u8 == 0 ==> (x & k) & 12u8 == 0) by (bit_vector);
    assert((x & !0b0011u8) & 3u8 == 0) by (bit_vector);
    assert((x & !0b1100u8) & 12u8 == 0) by (bit_vector);
}

/// A move only drops castling rights, and a king move drops those of its color.
pub proof fn lemma_rights_drop(cr: u8, m: Move, c: int, moved: int, cap: Option<int>)
    ensures
        rights_after(cr, m, c, moved, cap) & 3u8 != 0 ==> cr & 3u8 != 0,
        rights_after(cr, m, c, moved, cap) & 12u8 != 0 ==> cr & 12u8 != 0,
        c == 0 && moved == 5 ==> rights_after(cr, m, c, moved, cap) & 3u8 == 0,
        c != 0 && moved == 5 ==> rights_after(cr, m, c, moved, cap) & 12u8 == 0,
{
    lemma_and_keeps(cr, !0b0010u8);
    lemma_and_keeps(cr, !0b0001u8);
    lemma_and_keeps(cr, !0b1000u8);
    lemma_and_keeps(cr, !0b0100u8);
    let cr1 = if cap == Some(3int) && m.flag != MoveFlag::EnPassant {
        if m.to == 0 {
            cr & !0b0010u8
        } else if m.to == 7 {
            cr & !0b0001u8
        } else if m.to == 56 {
            cr & !0b1000u8
        } else if m.to == 63 {
            cr & !0b0100u8
        } else {
            cr
        }
    } else {
        cr
    };
    lemma_and_keeps(cr1, !0b0011u8);
    lemma_and_keeps(cr1, !0b1100u8);
    let cr2 = if c == 0 {
        if moved == 5 {
            cr1 & !0b0011u8
        } else {
            cr1
        }
    } else {
        if moved == 5 {
            cr1 & !0b1100u8
        } else {
            cr1
        }
    };
    lemma_and_keeps(cr2, !0b0010u8);
    lemma_and_keeps(cr2, !0b0001u8);
    lemma_and_keeps(cr2, !0b1000u8);
    lemma_and_keeps(cr2, !0b0100u8);
    let cr3 = if c == 0 {
        if moved == 3 && m.from == 0 {
            cr2 & !0b0010u8
        } else {
            cr2
        }
    } else {
        if moved == 3 && m.from == 56 {
            cr2 & !0b1000u8
        } else {
            cr2
        }
    };
    lemma_and_keeps(cr3, !0b0001u8);
    lemma_and_keeps(cr3, !0b0100u8);
}

/// A legal move from a sound position leads to a sound position.
pub proof fn lemma_legal_keeps_sound(p: Position, m: Move, q: Position, u: Undo)
    requires
        sound(p),
        legal(p, m),
        made(p, m, q, u),
    ensures
        sound(q),
{
    let v = p.view();
    let c = p.side_to_move.index();
    let from = m.from as int;
    let to = m.to as int;
    let moved = piece_kind(v.mailbox[from]).unwrap();
    let cap = piece_kind(v.mailbox[to]);
    lemma_pseudo_fits(p, m);
    crate::position::lemma_make_wf(v, m, c, moved, cap);
    let w = q.view();
    assert(w == make_view(v, m, c, moved, cap));
    let kc = choose|k: int| king_on(v, c, k);
    let oc = 1 - c;
    let ko = choose|k: int| king_on(v, oc, k);
    lemma_king_square(v, c, kc);
    lemma_king_square(v, 1 - c, ko);
    // The other king is not captured.
    if to == ko {
        assert(piece_at(v, ko, 1 - c, 5));
        lemma_capture_attacks(p, m);
        assert(false);
    }
    let (rf, rt) = castle_rook(c, m.flag == MoveFlag::KingCastle);
    let victim = crate::position::ep_victim(c, to);
    assert forall|s: int| 0 <= s < 64 implies (#[trigger] piece_at(w, s, 1 - c, 5) <==> s == ko) by {
        assert(piece_at(v, s, 1 - c, 5) <==> s == ko);
    }
    assert(king_on(w, 1 - c, ko));
    let newk = if moved == 5 && !m.flag.is_promo() {
        to
    } else {
        kc
    };
    let is_castle = m.flag == MoveFlag::KingCastle || m.flag == MoveFlag::QueenCastle;
    assert(crate::bitboards::cell_ok(v.mailbox[from]));
    if moved == 5 {
        assert(piece_at(v, from, c, 5));
    }
    assert forall|s: int| 0 <= s < 64 implies (#[trigger] piece_at(w, s, c, 5) <==> s == newk) by {
        assert(piece_at(v, s, c, 5) <==> s == kc);
        if m.flag.is_promo() {
            assert(promo_piece(m.promotion));
        }
        if s == to {
            if m.flag.is_promo() {
                assert(w.mailbox[s] == Some((c as u8, m.promotion.unwrap().index() as u8)));
                assert(piece_at(w, s, c, 5) <==> s == newk);
            } else {
                assert(w.mailbox[s] == Some((c as u8, moved as u8)));
                assert(piece_at(w, s, c, 5) <==> s == newk);
            }
        } else if s == from {
            assert(w.mailbox[s] is None);
            assert(piece_at(w, s, c, 5) <==> s == newk);
        } else if m.flag == MoveFlag::EnPassant && s == victim {
            assert(w.mailbox[s] is None);
            assert(piece_at(w, s, c, 5) <==> s == newk);
        } else if is_castle && s == rf {
            assert(w.mailbox[s] is None);
            assert(piece_at(w, s, c, 5) <==> s == newk);
        } else if is_castle && s == rt {
            assert(w.mailbox[s] == Some((c as u8, 3u8)));
            assert(piece_at(w, s, c, 5) <==> s == newk);
        } else {
            assert(w.mailbox[s] == v.mailbox[s]);
            assert(piece_at(w, s, c, 5) <==> s == newk);
        }
    }
    assert(king_on(w, c, newk));
    lemma_king_square(w, c, newk);
    lemma_king_square(w, 1 - c, ko);
    assert(one_king(w, 0) && one_king(w, 1)) by {
        if c == 0 {
            assert(king_on(w, 0, newk));
            assert(king_on(w, 1, ko));
        } else {
            assert(king_on(w, 1, newk));
            assert(king_on(w, 0, ko));
        }
    }
    // The en passant square after a double push.
    if m.flag == MoveFlag::DoublePawnPush {
        assert(pawn_double(v, c, m));
        let e = from + forward(c);
        assert(q.en_passant == Some(e as u8));
        assert(is_empty(w, e));
        assert(w.mailbox[to] == Some((c as u8, 0u8)));
    }
    assert(ep_ok(q));
    // Castling rights.
    lemma_rights_drop(p.castling_rights, m, c, moved, cap);
    if q.castling_rights & 0b0011 != 0 {
        assert(piece_at(v, 4, 0, 5));
        assert(piece_at(w, 4, 0, 5));
    }
    if q.castling_rights & 0b1100 != 0 {
        assert(piece_at(v, 60, 1, 5));
        assert(piece_at(w, 60, 1, 5));
    }
    assert(castle_ok(q));
    assert(q.valid());
}

/// Taking back a move made from a sound position returns to its node.
pub proof fn lemma_back(q0: Position, mv: Move, q: Position, q1: Position, u: crate::position::Undo, r: Position)
    requires
        sound(q0),
        legal(q0, mv),
        crate::position::made(q0, mv, q, u),
        node_of(q1) == node_of(q),
        q1.halfmove_clock == q.halfmove_clock,
        q1.zobrist_keys == q.zobrist_keys,
        crate::position::unmade(q1, mv, u, r),
    ensures
        node_of(r) == node_of(q0),
        sound(r),
        r.halfmove_clock == q0.halfmove_clock,
        r.fullmove_count == q0.fullmove_count,
        r.zobrist_keys == q0.zobrist_keys,
{
    lemma_pseudo_fits(q0, mv);
    let q2 = Position { fullmove_count: q.fullmove_count, ..q1 };
    let r2 = r;
    assert(q1.side_to_move == q.side_to_move);
    crate::position::law_undo_restores(q0, mv, q2, u, r2);
    assert(node_of(r) == node_of(q0));
    assert(r.side_to_move == q0.side_to_move);
}

/// Of the pseudo-legal moves of a valid position, the squares and the
/// promotion piece determine the move.
pub proof fn lemma_pseudo_unique(p: Position, m1: Move, m2: Move)
    requires
        p.valid(),
        pseudo_legal(p, m1),
        pseudo_legal(p, m2),
        m1.from == m2.from,
        m1.to == m2.to,
        m1.promotion == m2.promotion,
    ensures
        m1 == m2,
{
    let v = p.view();
    let c = p.side_to_move.index();
    let cr = p.castling_rights;
    assert((cr & 1u8 != 0 ==> cr & 3u8 != 0) && (cr & 2u8 != 0 ==> cr & 3u8 != 0) && (cr & 4u8 != 0 ==> cr & 12u8
        != 0) && (cr & 8u8 != 0 ==> cr & 12u8 != 0)) by (bit_vector);
    assert(m1.flag == m2.flag);
}

} // verus!

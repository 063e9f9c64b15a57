//! Static exchange evaluation: what a capture wins or loses once both sides
//! have recaptured on its square, each with its least valuable attacker.
use vstd::prelude::*;
use crate::bits::{bit, sq_mask, lowest_square, group_bit_lemmas};
use crate::bitboards::{BoardView, pidx, cell_ok, lemma_view_index};
use crate::attacks::{
    knight_step, king_step, pawn_step, bishop_reach, rook_reach, knight_attacks, king_attacks, pawn_attacks, bishop_attacks, rook_attacks,
};
use crate::types::{MoveFlag, Move, lemma_piece_index, lemma_color_index};
use crate::position::Position;
use crate::eval::{piece_value, piece_value_of};

verus! {

broadcast use group_bit_lemmas, lemma_view_index, lemma_piece_index, lemma_color_index;

/// The lowest square satisfying `p`, if any.
pub open spec fn first_square(p: spec_fn(int) -> bool) -> Option<int> {
    if exists|s: int| 0 <= s < 64 && #[trigger] p(s) {
        Some(choose|s: int| 0 <= s < 64 && #[trigger] p(s) && forall|t: int| 0 <= t < s ==> !#[trigger] p(t))
    } else {
        None
    }
}

/// The lowest square of a board is the first square it sets.
proof fn lemma_first_square(x: u64, p: spec_fn(int) -> bool)
    requires
        forall|s: int| 0 <= s < 64 ==> (#[trigger] bit(x, s) <==> p(s)),
    ensures
        x == 0 ==> first_square(p) is None,
        x != 0 ==> first_square(p) == Some(vstd::std_specs::bits::u64_trailing_zeros(x) as int),
{
    crate::bits::lemma_zero_iff_empty(x);
    if x != 0 {
        crate::bits::lemma_lowest_bit(x);
        let z = vstd::std_specs::bits::u64_trailing_zeros(x) as int;
        assert(p(z));
        let c = choose|s: int| 0 <= s < 64 && #[trigger] p(s) && forall|t: int| 0 <= t < s ==> !#[trigger] p(t);
        assert(0 <= c < 64 && p(c) && forall|t: int| 0 <= t < c ==> !#[trigger] p(t));
        if c < z {
            assert(bit(x, c));
        } else if c > z {
            assert(!p(z));
        }
    } else {
        assert forall|s: int| 0 <= s < 64 implies !#[trigger] p(s) by {
            assert(!bit(x, s));
        }
    }
}

/// A candidate attacker of `sq` for `side` among the occupied squares `occ`:
/// a piece of the side standing on an occupied square and attacking `sq`,
/// a bishop, rook or queen along a line that `occ` leaves open.
pub open spec fn attacker(v: BoardView, sq: int, side: int, occ: u64, k: int, a: int) -> bool {
    &&& bit(v.pieces[pidx(side, k)], a)
    &&& if k == 0 {
        bit(occ, a) && pawn_step(1 - side, sq, a)
    } else if k == 1 {
        bit(occ, a) && knight_step(sq, a)
    } else if k == 2 {
        bit(occ, a) && bishop_reach(occ, sq, a)
    } else if k == 3 {
        bit(occ, a) && rook_reach(occ, sq, a)
    } else if k == 4 {
        bit(occ, a) && (bishop_reach(occ, sq, a) || rook_reach(occ, sq, a))
    } else {
        bit(occ, a) && king_step(sq, a)
    }
}

pub open spec fn attacker_fn(v: BoardView, sq: int, side: int, occ: u64, k: int) -> spec_fn(int) -> bool {
    |a: int| attacker(v, sq, side, occ, k, a)
}

/// The least valuable attacker of `sq` for `side` from the kinds `k` on:
/// the lowest square holding one of the least valuable kind, with its value.
pub open spec fn lva_from(v: BoardView, sq: int, side: int, occ: u64, k: int) -> Option<(int, int)>
    decreases 6 - k,
{
    if k < 0 || k >= 6 {
        None
    } else {
        match first_square(attacker_fn(v, sq, side, occ, k)) {
            Some(a) => Some((a, piece_value(k))),
            None => lva_from(v, sq, side, occ, k + 1),
        }
    }
}

/// The pieces put on the square in turn, from the `n`-th recapture on: the
/// piece standing there before each recapture, while recaptures are
/// possible (at most 31 in all).
pub open spec fn exchange(v: BoardView, sq: int, side: int, occ: u64, on_sq: int, n: int) -> Seq<int>
    decreases 31 - n,
{
    if n < 0 || n >= 31 {
        Seq::empty()
    } else {
        match lva_from(v, sq, side, occ, 0) {
            None => Seq::empty(),
            Some((a, val)) => seq![on_sq] + exchange(v, sq, 1 - side, occ ^ sq_mask(a), val, n + 1),
        }
    }
}

/// What the side capturing at step `i` nets, each side stopping when
/// going on would lose: the piece taken less what the rest of the sequence
/// nets the other side, if that is positive.
pub open spec fn gain_from(t: Seq<int>, i: int) -> int
    decreases t.len() - i,
{
    if i < 0 || i >= t.len() - 1 {
        if 0 <= i < t.len() {
            t[i]
        } else {
            0
        }
    } else {
        let g = gain_from(t, i + 1);
        t[i] - if g > 0 {
            g
        } else {
            0
        }
    }
}

/// The occupancy before the exchange: every piece board, less the mover's square.
pub open spec fn all_pieces(v: BoardView) -> u64 {
    v.pieces[0] | v.pieces[1] | v.pieces[2] | v.pieces[3] | v.pieces[4] | v.pieces[5] | v.pieces[6]
        | v.pieces[7] | v.pieces[8] | v.pieces[9] | v.pieces[10] | v.pieces[11]
}

/// The sequence of values captured by `mv` and the recaptures after it.
pub open spec fn see_targets(v: BoardView, side: int, mv: Move) -> Seq<int> {
    let cap = v.mailbox[mv.to as int].unwrap().1 as int;
    let moved = v.mailbox[mv.from as int].unwrap().1 as int;
    let first = match mv.promotion {
        Some(p) => piece_value(p.index()),
        None => piece_value(moved),
    };
    seq![piece_value(cap)] + exchange(v, mv.to as int, 1 - side, all_pieces(v) ^ sq_mask(mv.from as int), first, 0)
}

/// The static exchange value of `mv`: 0 for en passant or when either
/// square is empty, else what the capture nets after the best recaptures.
pub open spec fn see_value(v: BoardView, side: int, mv: Move) -> int {
    if mv.flag == MoveFlag::EnPassant || v.mailbox[mv.to as int] is None || v.mailbox[mv.from as int] is None {
        0
    } else {
        gain_from(see_targets(v, side, mv), 0)
    }
}

/// A capture that the other side can answer once, after which the mover
/// has nothing left to recapture with, nets the victim less the piece it
/// leaves on the square: the promotion piece for a promotion, the moving
/// piece otherwise.
pub proof fn law_see_single_recapture(v: BoardView, side: int, mv: Move, a: int, val: int)
    requires
        0 <= side < 2,
        mv.flag != MoveFlag::EnPassant,
        v.mailbox[mv.to as int] is Some,
        v.mailbox[mv.from as int] is Some,
        lva_from(v, mv.to as int, 1 - side, all_pieces(v) ^ sq_mask(mv.from as int), 0) == Some((a, val)),
        lva_from(v, mv.to as int, side, (all_pieces(v) ^ sq_mask(mv.from as int)) ^ sq_mask(a), 0) is None,
    ensures
        see_value(v, side, mv) == piece_value(v.mailbox[mv.to as int].unwrap().1 as int) - (match mv.promotion {
            Some(k) => piece_value(k.index()),
            None => piece_value(v.mailbox[mv.from as int].unwrap().1 as int),
        }),
{
    let occ = all_pieces(v) ^ sq_mask(mv.from as int);
    let t = see_targets(v, side, mv);
    let first = match mv.promotion {
        Some(k) => piece_value(k.index()),
        None => piece_value(v.mailbox[mv.from as int].unwrap().1 as int),
    };
    assert(exchange(v, mv.to as int, side, occ ^ sq_mask(a), val, 1) =~= Seq::<int>::empty());
    assert(exchange(v, mv.to as int, 1 - side, occ, first, 0) =~= seq![first]) by {
        assert(seq![first] + Seq::<int>::empty() =~= seq![first]);
    }
    assert(t =~= seq![piece_value(v.mailbox[mv.to as int].unwrap().1 as int), first]);
    assert(first >= 0);
    assert(gain_from(t, 1) == first);
}

/// Only pieces still on the board recapture: every attacker stands on a
/// square of the occupancy, holding a piece of its side and kind; a piece
/// that has already captured (its square left) is no attacker again.
pub proof fn law_attackers_on_board(v: BoardView, sq: int, side: int, occ: u64, k: int, b: int)
    ensures
        attacker(v, sq, side, occ, k, b) ==> bit(occ, b) && bit(v.pieces[pidx(side, k)], b),
{
}

/// The recapturer the exchange takes is a cheapest one: an attacker of
/// `sq` for `side` whose value is what it reports, with no attacker of a
/// kind worth less; and there is none only when nothing attacks `sq`.
pub proof fn law_least_valuable_attacker(v: BoardView, sq: int, side: int, occ: u64)
    ensures
        lva_from(v, sq, side, occ, 0) is Some ==> {
            let a = lva_from(v, sq, side, occ, 0).unwrap().0;
            let val = lva_from(v, sq, side, occ, 0).unwrap().1;
            &&& exists|k: int| 0 <= k < 6 && #[trigger] attacker(v, sq, side, occ, k, a) && val == piece_value(k)
            &&& forall|k: int, b: int| 0 <= k < 6 && 0 <= b < 64 && #[trigger] attacker(v, sq, side, occ, k, b) ==> piece_value(k) >= val
        },
        lva_from(v, sq, side, occ, 0) is None ==> forall|k: int, b: int|
            0 <= k < 6 && 0 <= b < 64 ==> !#[trigger] attacker(v, sq, side, occ, k, b),
{
    lemma_lva_from(v, sq, side, occ, 0);
}

proof fn lemma_lva_from(v: BoardView, sq: int, side: int, occ: u64, k0: int)
    requires
        0 <= k0 <= 6,
    ensures
        lva_from(v, sq, side, occ, k0) is Some ==> {
            let a = lva_from(v, sq, side, occ, k0).unwrap().0;
            let val = lva_from(v, sq, side, occ, k0).unwrap().1;
            &&& exists|k: int| k0 <= k < 6 && #[trigger] attacker(v, sq, side, occ, k, a) && val == piece_value(k)
            &&& forall|k: int, b: int| k0 <= k < 6 && 0 <= b < 64 && #[trigger] attacker(v, sq, side, occ, k, b) ==> piece_value(k) >= val
        },
        lva_from(v, sq, side, occ, k0) is None ==> forall|k: int, b: int|
            k0 <= k < 6 && 0 <= b < 64 ==> !#[trigger] attacker(v, sq, side, occ, k, b),
    decreases 6 - k0,
{
    if k0 < 6 {
        lemma_lva_from(v, sq, side, occ, k0 + 1);
        let p = attacker_fn(v, sq, side, occ, k0);
        if exists|s: int| 0 <= s < 64 && #[trigger] p(s) {
            let a = choose|s: int| 0 <= s < 64 && #[trigger] p(s) && forall|t: int| 0 <= t < s ==> !#[trigger] p(t);
            assert(p(a));
            assert(first_square(p) == Some(a));
            assert(lva_from(v, sq, side, occ, k0) == Some((a, piece_value(k0))));
            assert(attacker(v, sq, side, occ, k0, a));
            assert(exists|k: int| k0 <= k < 6 && #[trigger] attacker(v, sq, side, occ, k, a) && piece_value(k0) == piece_value(k));
            assert forall|k: int, b: int| k0 <= k < 6 && 0 <= b < 64 && #[trigger] attacker(v, sq, side, occ, k, b) implies piece_value(k) >= piece_value(k0) by {}
            assert(lva_from(v, sq, side, occ, k0).unwrap().0 == a);
            assert(lva_from(v, sq, side, occ, k0).unwrap().1 == piece_value(k0));
        } else {
            assert(first_square(p) is None);
            assert(lva_from(v, sq, side, occ, k0) == lva_from(v, sq, side, occ, k0 + 1));
            assert forall|b: int| 0 <= b < 64 implies !#[trigger] attacker(v, sq, side, occ, k0, b) by {
                assert(!p(b));
            }
            if let Some((a, val)) = lva_from(v, sq, side, occ, k0 + 1) {
                let kk = choose|k: int| k0 + 1 <= k < 6 && #[trigger] attacker(v, sq, side, occ, k, a) && val == piece_value(k);
                assert(k0 <= kk < 6 && attacker(v, sq, side, occ, kk, a) && val == piece_value(kk));
                assert forall|k: int, b: int| k0 <= k < 6 && 0 <= b < 64 && #[trigger] attacker(v, sq, side, occ, k, b) implies piece_value(k) >= val by {
                    if k == k0 {
                        assert(!p(b));
                    }
                }
            } else {
                assert forall|k: int, b: int| k0 <= k < 6 && 0 <= b < 64 implies !#[trigger] attacker(v, sq, side, occ, k, b) by {
                    if k == k0 {
                        assert(!p(b));
                    }
                }
            }
        }
    }
}

/// A capture nets at most its victim, and at least the victim less the
/// piece it leaves on the square (the promotion piece for a promotion, the
/// moving piece otherwise), whatever follows; with no answer from the
/// other side it nets the victim exactly.
pub proof fn law_see_bounds(v: BoardView, side: int, mv: Move)
    requires
        0 <= side < 2,
        mv.flag != MoveFlag::EnPassant,
        v.mailbox[mv.to as int] is Some,
        v.mailbox[mv.from as int] is Some,
    ensures
        see_value(v, side, mv) <= piece_value(v.mailbox[mv.to as int].unwrap().1 as int),
        see_value(v, side, mv) >= piece_value(v.mailbox[mv.to as int].unwrap().1 as int) - (match mv.promotion {
            Some(k) => piece_value(k.index()),
            None => piece_value(v.mailbox[mv.from as int].unwrap().1 as int),
        }),
        lva_from(v, mv.to as int, 1 - side, all_pieces(v) ^ sq_mask(mv.from as int), 0) is None ==> see_value(v, side, mv)
            == piece_value(v.mailbox[mv.to as int].unwrap().1 as int),
{
    let occ = all_pieces(v) ^ sq_mask(mv.from as int);
    let t = see_targets(v, side, mv);
    let first = match mv.promotion {
        Some(k) => piece_value(k.index()),
        None => piece_value(v.mailbox[mv.from as int].unwrap().1 as int),
    };
    let cap = piece_value(v.mailbox[mv.to as int].unwrap().1 as int);
    let rest = exchange(v, mv.to as int, 1 - side, occ, first, 0);
    assert(t =~= seq![cap] + rest);
    if lva_from(v, mv.to as int, 1 - side, occ, 0) is None {
        assert(rest =~= Seq::<int>::empty());
        assert(t.len() == 1);
    } else {
        let (a, val) = lva_from(v, mv.to as int, 1 - side, occ, 0).unwrap();
        assert(rest =~= seq![first] + exchange(v, mv.to as int, side, occ ^ sq_mask(a), val, 1));
        assert(t[1] == first);
        assert(t.len() >= 2);
        lemma_gain_at_most(t, 1);
        assert(first >= 0);
    }
}

/// What the side capturing at step `i` nets is at most the piece it takes.
proof fn lemma_gain_at_most(t: Seq<int>, i: int)
    requires
        0 <= i < t.len(),
    ensures
        gain_from(t, i) <= t[i],
{
}

/// The least valuable attacker of `sq` for `side` with `occ` occupied.
fn find_lva(pos: &Position, sq: u8, side: usize, occ: u64) -> (r: Option<(u8, i32)>)
    requires
        sq < 64,
        side < 2,
    ensures
        match r {
            Some((a, val)) => lva_from(pos.view(), sq as int, side as int, occ, 0) == Some((a as int, val as int)) && a < 64,
            None => lva_from(pos.view(), sq as int, side as int, occ, 0) is None,
        },
{
    let ghost v = pos.view();
    let ghost s = side as int;
    let ghost q = sq as int;
    proof {
        reveal_with_fuel(lva_from, 7);
    }
    let pawns = pawn_attacks(1 - side, sq) & pos.bitboards.pieces[side][0] & occ;
    proof {
        assert forall|a: int| 0 <= a < 64 implies (#[trigger] bit(pawns, a) <==> attacker_fn(v, q, s, occ, 0)(a)) by {
            assert(v.pieces[pidx(s, 0)] == pos.bitboards.pieces[side as int][0]);
        }
        lemma_first_square(pawns, attacker_fn(v, q, s, occ, 0));
    }
    if pawns != 0 {
        return Some((lowest_square(pawns), 100));
    }
    let knights = knight_attacks(sq) & pos.bitboards.pieces[side][1] & occ;
    proof {
        assert forall|a: int| 0 <= a < 64 implies (#[trigger] bit(knights, a) <==> attacker_fn(v, q, s, occ, 1)(a)) by {
            assert(v.pieces[pidx(s, 1)] == pos.bitboards.pieces[side as int][1]);
        }
        lemma_first_square(knights, attacker_fn(v, q, s, occ, 1));
    }
    if knights != 0 {
        return Some((lowest_square(knights), 320));
    }
    let diag = bishop_attacks(sq, occ);
    let bishops = diag & pos.bitboards.pieces[side][2] & occ;
    proof {
        assert forall|a: int| 0 <= a < 64 implies (#[trigger] bit(bishops, a) <==> attacker_fn(v, q, s, occ, 2)(a)) by {
            assert(v.pieces[pidx(s, 2)] == pos.bitboards.pieces[side as int][2]);
        }
        lemma_first_square(bishops, attacker_fn(v, q, s, occ, 2));
    }
    if bishops != 0 {
        return Some((lowest_square(bishops), 330));
    }
    let straight = rook_attacks(sq, occ);
    let rooks = straight & pos.bitboards.pieces[side][3] & occ;
    proof {
        assert forall|a: int| 0 <= a < 64 implies (#[trigger] bit(rooks, a) <==> attacker_fn(v, q, s, occ, 3)(a)) by {
            assert(v.pieces[pidx(s, 3)] == pos.bitboards.pieces[side as int][3]);
        }
        lemma_first_square(rooks, attacker_fn(v, q, s, occ, 3));
    }
    if rooks != 0 {
        return Some((lowest_square(rooks), 500));
    }
    let queens = (diag | straight) & pos.bitboards.pieces[side][4] & occ;
    proof {
        assert forall|a: int| 0 <= a < 64 implies (#[trigger] bit(queens, a) <==> attacker_fn(v, q, s, occ, 4)(a)) by {
            assert(v.pieces[pidx(s, 4)] == pos.bitboards.pieces[side as int][4]);
        }
        lemma_first_square(queens, attacker_fn(v, q, s, occ, 4));
    }
    if queens != 0 {
        return Some((lowest_square(queens), 900));
    }
    let kings = king_attacks(sq) & pos.bitboards.pieces[side][5] & occ;
    proof {
        assert forall|a: int| 0 <= a < 64 implies (#[trigger] bit(kings, a) <==> attacker_fn(v, q, s, occ, 5)(a)) by {
            assert(v.pieces[pidx(s, 5)] == pos.bitboards.pieces[side as int][5]);
        }
        lemma_first_square(kings, attacker_fn(v, q, s, occ, 5));
        reveal_with_fuel(lva_from, 7);
    }
    if kings != 0 {
        return Some((lowest_square(kings), 10_000));
    }
    None
}

/// The integers of a sequence of `i32`.
pub open spec fn ints(s: Seq<i32>) -> Seq<int> {
    s.map_values(|x: i32| x as int)
}

proof fn lemma_lva_value(v: BoardView, sq: int, side: int, occ: u64, k: int)
    ensures
        lva_from(v, sq, side, occ, k) matches Some((a, val)) ==> 100 <= val <= 10_000 && 0 <= a < 64,
    decreases 6 - k,
{
    if 0 <= k < 6 {
        lemma_lva_value(v, sq, side, occ, k + 1);
        let p = attacker_fn(v, sq, side, occ, k);
        if exists|s: int| 0 <= s < 64 && #[trigger] p(s) {
            let c = choose|s: int| 0 <= s < 64 && #[trigger] p(s) && forall|t: int| 0 <= t < s ==> !#[trigger] p(t);
            assert(0 <= c < 64);
        }
    }
}

proof fn lemma_gain_bounds(t: Seq<int>, i: int)
    requires
        0 <= i < t.len(),
        forall|j: int| 0 <= j < t.len() ==> 0 <= #[trigger] t[j] <= 10_000,
    ensures
        -10_000 <= gain_from(t, i) <= 10_000,
    decreases t.len() - i,
{
    if i < t.len() - 1 {
        lemma_gain_bounds(t, i + 1);
    }
}

/// The static exchange value of the capture `mv`: what the side to move
/// nets on the target square once both sides have recaptured there with
/// their least valuable attackers, each stopping when going on would lose.
pub fn see(pos: &Position, mv: Move) -> (r: i32)
    requires
        pos.wf(),
        mv.from < 64,
        mv.to < 64,
    ensures
        r == see_value(pos.view(), pos.side_to_move.index(), mv),
        -10_000 <= r <= 10_000,
{
    let ghost v = pos.view();
    if mv.flag == MoveFlag::EnPassant {
        return 0;
    }
    let to = mv.to;
    let from = mv.from;
    let cap_p = match pos.bitboards.mailbox[to as usize] {
        Some((_, p)) => p,
        None => {
            return 0;
        },
    };
    let mov_p = match pos.bitboards.mailbox[from as usize] {
        Some((_, p)) => p,
        None => {
            return 0;
        },
    };
    proof {
        assert(cell_ok(v.mailbox[to as int]));
        assert(cell_ok(v.mailbox[from as int]));
    }
    let mut targets = [0i32; 32];
    targets[0] = piece_value_of(cap_p as usize);
    let mut n: usize = 0;
    let mut piece_on_sq = match mv.promotion {
        Some(p) => piece_value_of(p.idx()),
        None => piece_value_of(mov_p as usize),
    };
    let b = &pos.bitboards.pieces;
    let all = b[0][0] | b[0][1] | b[0][2] | b[0][3] | b[0][4] | b[0][5] | b[1][0] | b[1][1] | b[1][2]
        | b[1][3] | b[1][4] | b[1][5];
    proof {
        assert(all == all_pieces(v));
    }
    let mut occ = all ^ (1u64 << (from as u64));
    let mut side = pos.side_to_move.opposite();
    let ghost t_all = see_targets(v, pos.side_to_move.index(), mv);
    proof {
        assert(occ == all_pieces(v) ^ sq_mask(from as int));
        assert(t_all =~= ints(targets@.take(1)) + exchange(v, to as int, side.index(), occ, piece_on_sq as int, 0));
    }
    while n < 31
        invariant_except_break
            n <= 31,
            to < 64,
            v == pos.view(),
            0 <= piece_on_sq <= 10_000,
            forall|j: int| 0 <= j <= n ==> 0 <= #[trigger] targets@[j] <= 10_000,
            t_all == ints(targets@.take(n as int + 1)) + exchange(v, to as int, side.index(), occ, piece_on_sq as int, n as int),
        ensures
            n <= 31,
            forall|j: int| 0 <= j <= n ==> 0 <= #[trigger] targets@[j] <= 10_000,
            t_all == ints(targets@.take(n as int + 1)),
        decreases 31 - n,
    {
        match find_lva(pos, to, side.idx(), occ) {
            None => {
                proof {
                    assert(exchange(v, to as int, side.index(), occ, piece_on_sq as int, n as int) =~= Seq::<int>::empty());
                    assert(t_all =~= ints(targets@.take(n as int + 1)));
                }
                break;
            },
            Some((lva_sq, lva_val)) => {
                let ghost old_targets = targets@;
                let ghost old_n = n as int;
                let ghost old_occ = occ;
                let ghost old_side = side.index();
                let ghost old_on = piece_on_sq as int;
                n = n + 1;
                targets[n] = piece_on_sq;
                piece_on_sq = lva_val;
                occ = occ ^ (1u64 << (lva_sq as u64));
                side = side.opposite();
                proof {
                    lemma_lva_value(v, to as int, old_side, old_occ, 0);
                    assert(0 <= lva_val <= 10_000);
                    assert(occ == old_occ ^ sq_mask(lva_sq as int));
                    assert(exchange(v, to as int, old_side, old_occ, old_on, old_n) =~= seq![old_on]
                        + exchange(v, to as int, side.index(), occ, piece_on_sq as int, n as int));
                    assert(ints(targets@.take(n as int + 1)) =~= ints(old_targets.take(old_n + 1)).push(old_on));
                    assert(t_all =~= ints(targets@.take(n as int + 1)) + exchange(v, to as int, side.index(), occ, piece_on_sq as int, n as int));
                }
            },
        }
    }
    proof {
        if n == 31 {
            assert(t_all =~= ints(targets@.take(n as int + 1)));
        }
        lemma_gain_bounds(t_all, n as int);
    }
    let mut gain = targets[n];
    let mut i: usize = n;
    while i > 0
        invariant
            i <= n,
            n <= 31,
            t_all == ints(targets@.take(n as int + 1)),
            forall|j: int| 0 <= j <= n ==> 0 <= #[trigger] targets@[j] <= 10_000,
            gain == gain_from(t_all, i as int),
            -10_000 <= gain <= 10_000,
        decreases i,
    {
        i = i - 1;
        let best = if gain > 0 { gain } else { 0 };
        gain = targets[i] - best;
        proof {
            lemma_gain_bounds(t_all, i as int);
        }
    }
    gain
}

} // verus!

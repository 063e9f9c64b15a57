//! Static evaluation: material, the game phase, and sums over the squares of
//! a board.
use vstd::prelude::*;
use crate::bits::{bit, popcount, count_ones, BitIter, group_bit_lemmas};
use crate::bitboards::{BoardView, pidx, lemma_view_index};
use crate::types::{Color, lemma_color_index};
use crate::position::Position;
use vstd::arithmetic::power2::pow2;
use vstd::std_specs::bits::u64_trailing_zeros;
use crate::attacks::{rank_of, file_of, abs};
use crate::pst::{MG_PST, EG_PST, PASSED_MG, PASSED_EG, lemma_table_bounds};

verus! {

broadcast use group_bit_lemmas, lemma_view_index, lemma_color_index;

/// The value of a piece kind: pawn 100, knight 320, bishop 330, rook 500,
/// queen 900, king 10000.
pub open spec fn piece_value(k: int) -> int {
    if k == 0 {
        100
    } else if k == 1 {
        320
    } else if k == 2 {
        330
    } else if k == 3 {
        500
    } else if k == 4 {
        900
    } else {
        10_000
    }
}

/// The value of piece kind `k`.
pub fn piece_value_of(k: usize) -> (r: i32)
    requires
        k < 6,
    ensures
        r == piece_value(k as int),
{
    if k == 0 {
        100
    } else if k == 1 {
        320
    } else if k == 2 {
        330
    } else if k == 3 {
        500
    } else if k == 4 {
        900
    } else {
        10_000
    }
}

/// The sum of `f` over the squares below `n` that are set in `x`.
pub open spec fn sq_sum(x: u64, f: spec_fn(int) -> int, n: int) -> int
    decreases n,
{
    if n <= 0 {
        0
    } else {
        sq_sum(x, f, n - 1) + if bit(x, n - 1) {
            f(n - 1)
        } else {
            0
        }
    }
}

/// Taking one set square out of a board takes its term out of the sum.
pub proof fn lemma_sq_sum_remove(x: u64, y: u64, s: int, f: spec_fn(int) -> int, n: int)
    requires
        bit(x, s),
        forall|t: int| #[trigger] bit(y, t) <==> (bit(x, t) && t != s),
    ensures
        sq_sum(x, f, n) == sq_sum(y, f, n) + if s < n {
            f(s)
        } else {
            0
        },
    decreases n,
{
    if n > 0 {
        lemma_sq_sum_remove(x, y, s, f, n - 1);
    }
}

/// The sum over an empty board is 0.
pub proof fn lemma_sq_sum_zero(f: spec_fn(int) -> int, n: int)
    ensures
        sq_sum(0u64, f, n) == 0,
    decreases n,
{
    if n > 0 {
        lemma_sq_sum_zero(f, n - 1);
    }
}

/// A sum of terms within a bound is within the bound times the count.
pub proof fn lemma_sq_sum_bound(x: u64, f: spec_fn(int) -> int, n: int, lo: int, hi: int)
    requires
        n >= 0,
        lo <= 0 <= hi,
        forall|t: int| 0 <= t < n ==> lo <= #[trigger] f(t) <= hi,
    ensures
        n * lo <= sq_sum(x, f, n) <= n * hi,
    decreases n,
{
    if n > 0 {
        lemma_sq_sum_bound(x, f, n - 1, lo, hi);
        assert((n - 1) * lo + lo == n * lo) by (nonlinear_arith);
        assert((n - 1) * hi + hi == n * hi) by (nonlinear_arith);
    }
}

/// Material from White's side: the value of White's pieces less Black's.
pub open spec fn material(v: BoardView) -> int {
    (popcount(v.pieces[pidx(0, 0)]) - popcount(v.pieces[pidx(1, 0)])) * 100
        + (popcount(v.pieces[pidx(0, 1)]) - popcount(v.pieces[pidx(1, 1)])) * 320
        + (popcount(v.pieces[pidx(0, 2)]) - popcount(v.pieces[pidx(1, 2)])) * 330
        + (popcount(v.pieces[pidx(0, 3)]) - popcount(v.pieces[pidx(1, 3)])) * 500
        + (popcount(v.pieces[pidx(0, 4)]) - popcount(v.pieces[pidx(1, 4)])) * 900
        + (popcount(v.pieces[pidx(0, 5)]) - popcount(v.pieces[pidx(1, 5)])) * 10_000
}

/// A score from White's side, as seen by the side to move.
pub open spec fn for_side(score: int, side: Color) -> int {
    if side == Color::White {
        score
    } else {
        -score
    }
}

/// A board has at most 64 squares set.
pub proof fn lemma_popcount_le_64(x: u64)
    ensures
        popcount(x) <= 64,
{
    vstd::arithmetic::power2::lemma2_to64();
    lemma_popcount_bound(x, 64);
}

proof fn lemma_popcount_bound(x: u64, n: nat)
    requires
        x < pow2(n),
    ensures
        popcount(x) <= n,
    decreases x,
{
    if x != 0 {
        if n == 0 {
            vstd::arithmetic::power2::lemma2_to64();
        } else {
            vstd::arithmetic::power2::lemma_pow2_unfold(n);
            lemma_popcount_bound(x / 2, (n - 1) as nat);
        }
    }
}

/// The material balance from the side to move's point of view.
pub fn evaluate_material(pos: &Position) -> (r: i32)
    ensures
        r == for_side(material(pos.view()), pos.side_to_move),
{
    let mut score: i32 = 0;
    let mut piece: usize = 0;
    let ghost v = pos.view();
    while piece < 6
        invariant
            piece <= 6,
            v == pos.view(),
            score == material_upto(v, piece as int),
            -(piece as int) * 640_000 <= score <= (piece as int) * 640_000,
        decreases 6 - piece,
    {
        let white = count_ones(pos.bitboards.pieces[0][piece]);
        let black = count_ones(pos.bitboards.pieces[1][piece]);
        proof {
            lemma_popcount_le_64(pos.bitboards.pieces[0][piece as int]);
            lemma_popcount_le_64(pos.bitboards.pieces[1][piece as int]);
            assert(v.pieces[pidx(0, piece as int)] == pos.bitboards.pieces[0][piece as int]);
            assert(v.pieces[pidx(1, piece as int)] == pos.bitboards.pieces[1][piece as int]);
        }
        let value = piece_value_of(piece);
        let diff = white as i32 - black as i32;
        proof {
            assert(-64 <= diff <= 64);
            assert(-640_000 <= diff * value <= 640_000) by (nonlinear_arith)
                requires
                    -64 <= diff <= 64,
                    0 < value <= 10_000,
            ;
        }
        score = score + diff * value;
        piece = piece + 1;
    }
    proof {
        reveal_with_fuel(material_upto, 7);
    }
    if pos.side_to_move == Color::White {
        score
    } else {
        -score
    }
}

/// The material of the first `n` piece kinds.
pub open spec fn material_upto(v: BoardView, n: int) -> int
    decreases n,
{
    if n <= 0 {
        0
    } else {
        material_upto(v, n - 1) + (popcount(v.pieces[pidx(0, n - 1)]) - popcount(v.pieces[pidx(1, n - 1)]))
            * piece_value(n - 1)
    }
}

/// How far the game is from its end: knights and bishops count 1, rooks 2,
/// queens 4, summed over both sides and capped at 24 (all pieces on).
pub open spec fn phase_weight(k: int) -> int {
    if k == 1 || k == 2 {
        1
    } else if k == 3 {
        2
    } else if k == 4 {
        4
    } else {
        0
    }
}

pub open spec fn phase_upto(v: BoardView, n: int) -> int
    decreases n,
{
    if n <= 0 {
        0
    } else {
        phase_upto(v, n - 1) + (popcount(v.pieces[pidx(0, n - 1)]) + popcount(v.pieces[pidx(1, n - 1)]))
            * phase_weight(n - 1)
    }
}

pub open spec fn phase_of(v: BoardView) -> int {
    let p = phase_upto(v, 6);
    if p < 24 {
        p
    } else {
        24
    }
}

/// The game phase, from 24 with all pieces on down to 0.
pub fn game_phase(pos: &Position) -> (r: i32)
    ensures
        r == phase_of(pos.view()),
        0 <= r <= 24,
{
    let mut phase: i32 = 0;
    let mut piece: usize = 0;
    let ghost v = pos.view();
    while piece < 6
        invariant
            piece <= 6,
            v == pos.view(),
            phase == phase_upto(v, piece as int),
            0 <= phase <= (piece as int) * 512,
        decreases 6 - piece,
    {
        let weight: i32 = if piece == 1 || piece == 2 {
            1
        } else if piece == 3 {
            2
        } else if piece == 4 {
            4
        } else {
            0
        };
        let w = count_ones(pos.bitboards.pieces[0][piece]);
        let b = count_ones(pos.bitboards.pieces[1][piece]);
        proof {
            lemma_popcount_le_64(pos.bitboards.pieces[0][piece as int]);
            lemma_popcount_le_64(pos.bitboards.pieces[1][piece as int]);
            assert(v.pieces[pidx(0, piece as int)] == pos.bitboards.pieces[0][piece as int]);
            assert(v.pieces[pidx(1, piece as int)] == pos.bitboards.pieces[1][piece as int]);
            assert(0 <= (w + b) * weight <= 512) by (nonlinear_arith)
                requires
                    0 <= w <= 64,
                    0 <= b <= 64,
                    0 <= weight <= 4,
            ;
        }
        phase = phase + (w as i32 + b as i32) * weight;
        piece = piece + 1;
    }
    proof {
        reveal_with_fuel(phase_upto, 7);
    }
    if phase < 24 {
        phase
    } else {
        24
    }
}

/// The square seen from the other side: the same file on the mirrored rank.
pub open spec fn mirror(s: int) -> int {
    (7 - rank_of(s)) * 8 + file_of(s)
}

/// A piece's value plus its table entry on a square (mirrored for Black).
pub open spec fn psq_fn(k: int, black: bool, mg: bool) -> spec_fn(int) -> int {
    |s: int|
        {
            let t = if black { mirror(s) } else { s };
            piece_value(k) + if mg { MG_PST[k][t] as int } else { EG_PST[k][t] as int }
        }
}

/// Pieces and their squares, White's less Black's, over the first `n` kinds.
pub open spec fn psq_total(v: BoardView, mg: bool, n: int) -> int
    decreases n,
{
    if n <= 0 {
        0
    } else {
        psq_total(v, mg, n - 1) + sq_sum(v.pieces[pidx(0, n - 1)], psq_fn(n - 1, false, mg), 64) - sq_sum(
            v.pieces[pidx(1, n - 1)],
            psq_fn(n - 1, true, mg),
            64,
        )
    }
}

pub const NOT_A_FILE: u64 = 0xFEFEFEFEFEFEFEFE;

pub const NOT_H_FILE: u64 = 0x7F7F7F7F7F7F7F7F;

pub const FILE_A: u64 = 0x0101010101010101;

/// The pawns with the squares beside them on their ranks.
pub open spec fn spread(x: u64) -> u64 {
    x | ((x & NOT_H_FILE) << 1u64) | ((x & NOT_A_FILE) >> 1u64)
}

/// Every square on or below a set square of its file.
pub open spec fn fill_down(t: u64) -> u64 {
    let t1 = t | (t >> 8u64);
    let t2 = t1 | (t1 >> 16u64);
    t2 | (t2 >> 32u64)
}

/// Every square on or above a set square of its file.
pub open spec fn fill_up(t: u64) -> u64 {
    let t1 = t | (t << 8u64);
    let t2 = t1 | (t1 << 16u64);
    t2 | (t2 << 32u64)
}

/// White's passed pawns: no black pawn ahead on their own or a
/// neighbouring file.
pub open spec fn white_passed(v: BoardView) -> u64 {
    v.pieces[pidx(0, 0)] & !fill_down(spread(v.pieces[pidx(1, 0)]))
}

/// Black's passed pawns.
pub open spec fn black_passed(v: BoardView) -> u64 {
    v.pieces[pidx(1, 0)] & !fill_up(spread(v.pieces[pidx(0, 0)]))
}

/// The passed-pawn bonus of a square, by the rank as its owner sees it.
pub open spec fn passed_fn(black: bool, mg: bool) -> spec_fn(int) -> int {
    |s: int|
        {
            let r = if black { rank_of(mirror(s)) } else { rank_of(s) };
            if mg { PASSED_MG[r] as int } else { PASSED_EG[r] as int }
        }
}

/// The squares of file `f`.
pub open spec fn file_mask(f: int) -> u64 {
    FILE_A << (f as u64)
}

/// How many pawns of `x` stand on file `f`.
pub open spec fn on_file(x: u64, f: int) -> int {
    popcount((x & file_mask(f)) >> (f as u64)) as int
}

/// Pawns beyond the first on each of the first `n` files.
pub open spec fn doubled(x: u64, n: int) -> int
    decreases n,
{
    if n <= 0 {
        0
    } else {
        doubled(x, n - 1) + if on_file(x, n - 1) > 1 {
            on_file(x, n - 1) - 1
        } else {
            0
        }
    }
}

/// The files beside file `f`.
pub open spec fn neighbours(f: int) -> u64 {
    (if f > 0 { FILE_A << ((f - 1) as u64) } else { 0u64 }) | (if f < 7 {
        FILE_A << ((f + 1) as u64)
    } else {
        0u64
    })
}

/// Pawns on the first `n` files with no pawn of their side on a
/// neighbouring file.
pub open spec fn isolated(x: u64, n: int) -> int
    decreases n,
{
    if n <= 0 {
        0
    } else {
        isolated(x, n - 1) + if x & file_mask(n - 1) != 0 && x & neighbours(n - 1) == 0 {
            popcount(x & file_mask(n - 1)) as int
        } else {
            0
        }
    }
}

/// The king distance: the larger of the rank and the file distance.
pub open spec fn cheb(a: int, b: int) -> int {
    let dr = abs(rank_of(a) - rank_of(b));
    let df = abs(file_of(a) - file_of(b));
    if dr >= df {
        dr
    } else {
        df
    }
}

/// A passed pawn's bonus for the kings' distances: the closer the own king
/// and the farther the other, the more, times how far the pawn has come.
pub open spec fn king_prox_fn(wk: int, bk: int, black: bool) -> spec_fn(int) -> int {
    |s: int|
        if black {
            (cheb(wk, s) - cheb(bk, s)) * 5 * (7 - rank_of(s))
        } else {
            (cheb(bk, s) - cheb(wk, s)) * 5 * rank_of(s)
        }
}

/// The middlegame score from White's side.
pub open spec fn mg_score(v: BoardView) -> int {
    let wp = v.pieces[pidx(0, 0)];
    let bp = v.pieces[pidx(1, 0)];
    psq_total(v, true, 6) + sq_sum(white_passed(v), passed_fn(false, true), 64) - sq_sum(
        black_passed(v),
        passed_fn(true, true),
        64,
    ) + (doubled(bp, 8) - doubled(wp, 8)) * 15 + (isolated(bp, 8) - isolated(wp, 8)) * 15
}

/// The endgame score from White's side.
pub open spec fn eg_score(v: BoardView) -> int {
    let wp = v.pieces[pidx(0, 0)];
    let bp = v.pieces[pidx(1, 0)];
    let wk = u64_trailing_zeros(v.pieces[pidx(0, 5)]) as int;
    let bk = u64_trailing_zeros(v.pieces[pidx(1, 5)]) as int;
    psq_total(v, false, 6) + sq_sum(white_passed(v), passed_fn(false, false), 64) - sq_sum(
        black_passed(v),
        passed_fn(true, false),
        64,
    ) + (doubled(bp, 8) - doubled(wp, 8)) * 25 + (isolated(bp, 8) - isolated(wp, 8)) * 20 + sq_sum(
        white_passed(v),
        king_prox_fn(wk, bk, false),
        64,
    ) - sq_sum(black_passed(v), king_prox_fn(wk, bk, true), 64)
}

/// The middlegame score from White's side without its doubled-pawn term:
/// piece-square values, passed pawns and isolated pawns.
pub open spec fn mg_undoubled(v: BoardView) -> int {
    let wp = v.pieces[pidx(0, 0)];
    let bp = v.pieces[pidx(1, 0)];
    psq_total(v, true, 6) + sq_sum(white_passed(v), passed_fn(false, true), 64) - sq_sum(
        black_passed(v),
        passed_fn(true, true),
        64,
    ) + (isolated(bp, 8) - isolated(wp, 8)) * 15
}

/// The endgame score from White's side without its doubled-pawn term:
/// piece-square values, passed pawns, isolated pawns and the kings'
/// distance to passed pawns.
pub open spec fn eg_undoubled(v: BoardView) -> int {
    let wp = v.pieces[pidx(0, 0)];
    let bp = v.pieces[pidx(1, 0)];
    let wk = u64_trailing_zeros(v.pieces[pidx(0, 5)]) as int;
    let bk = u64_trailing_zeros(v.pieces[pidx(1, 5)]) as int;
    psq_total(v, false, 6) + sq_sum(white_passed(v), passed_fn(false, false), 64) - sq_sum(
        black_passed(v),
        passed_fn(true, false),
        64,
    ) + (isolated(bp, 8) - isolated(wp, 8)) * 20 + sq_sum(white_passed(v), king_prox_fn(wk, bk, false), 64) - sq_sum(
        black_passed(v),
        king_prox_fn(wk, bk, true),
        64,
    )
}

/// The pawns beyond the first on each file are never negative in number.
pub proof fn lemma_doubled_nonneg(x: u64, n: int)
    ensures
        doubled(x, n) >= 0,
    decreases n,
{
    if n > 0 {
        lemma_doubled_nonneg(x, n - 1);
    }
}

/// Doubled pawns cost their side: each pawn beyond the first on a file
/// takes 15 from its side's middlegame score and 25 from its endgame score.
pub proof fn law_doubled_pawns(v: BoardView)
    ensures
        mg_score(v) == mg_undoubled(v) - 15 * doubled(v.pieces[pidx(0, 0)], 8) + 15 * doubled(v.pieces[pidx(1, 0)], 8),
        eg_score(v) == eg_undoubled(v) - 25 * doubled(v.pieces[pidx(0, 0)], 8) + 25 * doubled(v.pieces[pidx(1, 0)], 8),
{
}

/// Of two boards alike but for their doubled pawns (in the other terms and
/// the phase), the one where White has more doubled pawns and Black no
/// more scores no higher for White.
pub proof fn law_doubled_monotone(v1: BoardView, v2: BoardView)
    requires
        mg_undoubled(v1) == mg_undoubled(v2),
        eg_undoubled(v1) == eg_undoubled(v2),
        phase_of(v1) == phase_of(v2),
        0 <= phase_of(v1) <= 24,
        doubled(v1.pieces[pidx(0, 0)], 8) >= doubled(v2.pieces[pidx(0, 0)], 8),
        doubled(v1.pieces[pidx(1, 0)], 8) <= doubled(v2.pieces[pidx(1, 0)], 8),
    ensures
        white_score(v1) <= white_score(v2),
{
    law_doubled_pawns(v1);
    law_doubled_pawns(v2);
    let ph = phase_of(v1);
    let x1 = mg_score(v1) * ph + eg_score(v1) * (24 - ph);
    let x2 = mg_score(v2) * ph + eg_score(v2) * (24 - ph);
    assert(mg_score(v1) <= mg_score(v2));
    assert(eg_score(v1) <= eg_score(v2));
    assert(x1 <= x2) by (nonlinear_arith)
        requires
            x1 == mg_score(v1) * ph + eg_score(v1) * (24 - ph),
            x2 == mg_score(v2) * ph + eg_score(v2) * (24 - ph),
            mg_score(v1) <= mg_score(v2),
            eg_score(v1) <= eg_score(v2),
            0 <= ph <= 24,
    ;
    lemma_trunc_div_monotone(x1, x2);
}

/// The middlegame score from White's side without its pawn-structure
/// penalties: piece-square values and passed pawns.
pub open spec fn mg_base(v: BoardView) -> int {
    psq_total(v, true, 6) + sq_sum(white_passed(v), passed_fn(false, true), 64) - sq_sum(
        black_passed(v),
        passed_fn(true, true),
        64,
    )
}

/// The endgame score from White's side without its pawn-structure
/// penalties: piece-square values, passed pawns and the kings' distance to
/// them.
pub open spec fn eg_base(v: BoardView) -> int {
    let wk = u64_trailing_zeros(v.pieces[pidx(0, 5)]) as int;
    let bk = u64_trailing_zeros(v.pieces[pidx(1, 5)]) as int;
    psq_total(v, false, 6) + sq_sum(white_passed(v), passed_fn(false, false), 64) - sq_sum(
        black_passed(v),
        passed_fn(true, false),
        64,
    ) + sq_sum(white_passed(v), king_prox_fn(wk, bk, false), 64) - sq_sum(black_passed(v), king_prox_fn(wk, bk, true), 64)
}

/// Doubled and isolated pawns cost their own side: each doubled pawn 15 in
/// the middlegame and 25 in the endgame, each isolated pawn 15 and 20.
pub proof fn law_pawn_penalties(v: BoardView)
    ensures
        mg_score(v) == mg_base(v) - 15 * doubled(v.pieces[pidx(0, 0)], 8) + 15 * doubled(v.pieces[pidx(1, 0)], 8) - 15
            * isolated(v.pieces[pidx(0, 0)], 8) + 15 * isolated(v.pieces[pidx(1, 0)], 8),
        eg_score(v) == eg_base(v) - 25 * doubled(v.pieces[pidx(0, 0)], 8) + 25 * doubled(v.pieces[pidx(1, 0)], 8) - 20
            * isolated(v.pieces[pidx(0, 0)], 8) + 20 * isolated(v.pieces[pidx(1, 0)], 8),
{
}

/// Of two boards alike but for their weak pawns (in the other terms and
/// the phase), the one where White has no fewer doubled and isolated pawns
/// and Black no more scores no higher for White.
pub proof fn law_pawn_penalties_monotone(v1: BoardView, v2: BoardView)
    requires
        mg_base(v1) == mg_base(v2),
        eg_base(v1) == eg_base(v2),
        phase_of(v1) == phase_of(v2),
        0 <= phase_of(v1) <= 24,
        doubled(v1.pieces[pidx(0, 0)], 8) >= doubled(v2.pieces[pidx(0, 0)], 8),
        isolated(v1.pieces[pidx(0, 0)], 8) >= isolated(v2.pieces[pidx(0, 0)], 8),
        doubled(v1.pieces[pidx(1, 0)], 8) <= doubled(v2.pieces[pidx(1, 0)], 8),
        isolated(v1.pieces[pidx(1, 0)], 8) <= isolated(v2.pieces[pidx(1, 0)], 8),
    ensures
        white_score(v1) <= white_score(v2),
{
    law_pawn_penalties(v1);
    law_pawn_penalties(v2);
    let ph = phase_of(v1);
    let x1 = mg_score(v1) * ph + eg_score(v1) * (24 - ph);
    let x2 = mg_score(v2) * ph + eg_score(v2) * (24 - ph);
    assert(mg_score(v1) <= mg_score(v2));
    assert(eg_score(v1) <= eg_score(v2));
    assert(x1 <= x2) by (nonlinear_arith)
        requires
            x1 == mg_score(v1) * ph + eg_score(v1) * (24 - ph),
            x2 == mg_score(v2) * ph + eg_score(v2) * (24 - ph),
            mg_score(v1) <= mg_score(v2),
            eg_score(v1) <= eg_score(v2),
            0 <= ph <= 24,
    ;
    lemma_trunc_div_monotone(x1, x2);
}

/// Rounding toward zero keeps the order of numerators.
proof fn lemma_trunc_div_monotone(x1: int, x2: int)
    requires
        x1 <= x2,
    ensures
        trunc_div(x1, 24) <= trunc_div(x2, 24),
{
    if x1 >= 0 {
        vstd::arithmetic::div_mod::lemma_div_is_ordered(x1, x2, 24);
    } else if x2 >= 0 {
        assert(-((-x1) / 24) <= 0);
        assert(x2 / 24 >= 0);
    } else {
        vstd::arithmetic::div_mod::lemma_div_is_ordered(-x2, -x1, 24);
    }
}

/// Integer division rounding toward zero, as Rust's `/`.
pub open spec fn trunc_div(a: int, b: int) -> int {
    if a >= 0 {
        a / b
    } else {
        -((-a) / b)
    }
}

/// The evaluation from White's side: the middlegame and endgame scores
/// blended by the phase.
pub open spec fn white_score(v: BoardView) -> int {
    let phase = phase_of(v);
    trunc_div(mg_score(v) * phase + eg_score(v) * (24 - phase), 24)
}

/// The evaluation from the side to move's point of view.
pub open spec fn evaluation(v: BoardView, side: Color) -> int {
    for_side(white_score(v), side)
}

/// Handing the move to the other side negates the evaluation: it is one
/// score seen from either side.
pub proof fn law_side_flip(v: BoardView, side: Color)
    ensures
        evaluation(v, side.other()) == -evaluation(v, side),
{
}

/// The count of set squares: the sum of 1 over them.
pub open spec fn one_fn() -> spec_fn(int) -> int {
    |s: int| 1int
}

/// Taking the lowest square out of a nonempty board: the sums lose its term.
proof fn lemma_take_square(x: u64, y: u64, s: int, f: spec_fn(int) -> int)
    requires
        bit(x, s),
        forall|t: int| #[trigger] bit(y, t) <==> (bit(x, t) && t != s),
    ensures
        sq_sum(x, f, 64) == sq_sum(y, f, 64) + f(s),
        sq_sum(x, one_fn(), 64) == sq_sum(y, one_fn(), 64) + 1,
{
    lemma_sq_sum_remove(x, y, s, f, 64);
    lemma_sq_sum_remove(x, y, s, one_fn(), 64);
}

proof fn lemma_count_nonneg(x: u64)
    ensures
        0 <= sq_sum(x, one_fn(), 64) <= 64,
{
    lemma_sq_sum_bound(x, one_fn(), 64, 0, 1);
}

/// The square seen from the other side.
fn mirror_sq(sq: u8) -> (r: usize)
    requires
        sq < 64,
    ensures
        r == mirror(sq as int),
        r < 64,
{
    ((7 - sq / 8) * 8 + sq % 8) as usize
}

/// The middlegame and endgame sums of a piece's value and table entries
/// over the squares of `b`.
fn psq_sums(b: u64, k: usize, black: bool) -> (r: (i32, i32))
    requires
        k < 6,
    ensures
        r.0 == sq_sum(b, psq_fn(k as int, black, true), 64),
        r.1 == sq_sum(b, psq_fn(k as int, black, false), 64),
        0 <= r.0 <= 64 * 10080,
        0 <= r.1 <= 64 * 10080,
{
    let ghost fm = psq_fn(k as int, black, true);
    let ghost fe = psq_fn(k as int, black, false);
    proof {
        lemma_table_bounds();
        lemma_sq_sum_bound(b, fm, 64, 0, 10080);
        lemma_sq_sum_bound(b, fe, 64, 0, 10080);
    }
    let value = piece_value_of(k);
    let mut it = BitIter::new(b);
    let mut mg: i32 = 0;
    let mut eg: i32 = 0;
    while it.0 != 0
        invariant
            k < 6,
            value == piece_value(k as int),
            fm == psq_fn(k as int, black, true),
            fe == psq_fn(k as int, black, false),
            mg + sq_sum(it.0, fm, 64) == sq_sum(b, fm, 64),
            eg + sq_sum(it.0, fe, 64) == sq_sum(b, fe, 64),
            0 <= sq_sum(b, fm, 64) <= 64 * 10080,
            0 <= sq_sum(b, fe, 64) <= 64 * 10080,
            0 <= sq_sum(it.0, fm, 64),
            0 <= sq_sum(it.0, fe, 64),
        decreases sq_sum(it.0, one_fn(), 64),
    {
        let ghost before = it.0;
        let sq = match it.next() {
            Some(sq) => sq,
            None => {
                assert(false);
                0
            },
        };
        let t: usize = if black { mirror_sq(sq) } else { sq as usize };
        proof {
            lemma_table_bounds();
            lemma_take_square(before, it.0, sq as int, fm);
            lemma_take_square(before, it.0, sq as int, fe);
            lemma_sq_sum_bound(it.0, fm, 64, 0, 10080);
            lemma_sq_sum_bound(it.0, fe, 64, 0, 10080);
            lemma_count_nonneg(it.0);
        }
        mg = mg + value + MG_PST[k][t];
        eg = eg + value + EG_PST[k][t];
    }
    proof {
        lemma_sq_sum_zero(fm, 64);
        lemma_sq_sum_zero(fe, 64);
    }
    (mg, eg)
}

/// The middlegame and endgame passed-pawn bonuses over the squares of `b`.
fn passed_sums(b: u64, black: bool) -> (r: (i32, i32))
    ensures
        r.0 == sq_sum(b, passed_fn(black, true), 64),
        r.1 == sq_sum(b, passed_fn(black, false), 64),
        0 <= r.0 <= 64 * 200,
        0 <= r.1 <= 64 * 200,
{
    let ghost fm = passed_fn(black, true);
    let ghost fe = passed_fn(black, false);
    proof {
        lemma_table_bounds();
        lemma_sq_sum_bound(b, fm, 64, 0, 200);
        lemma_sq_sum_bound(b, fe, 64, 0, 200);
    }
    let mut it = BitIter::new(b);
    let mut mg: i32 = 0;
    let mut eg: i32 = 0;
    while it.0 != 0
        invariant
            fm == passed_fn(black, true),
            fe == passed_fn(black, false),
            mg + sq_sum(it.0, fm, 64) == sq_sum(b, fm, 64),
            eg + sq_sum(it.0, fe, 64) == sq_sum(b, fe, 64),
            0 <= sq_sum(b, fm, 64) <= 64 * 200,
            0 <= sq_sum(b, fe, 64) <= 64 * 200,
            0 <= sq_sum(it.0, fm, 64),
            0 <= sq_sum(it.0, fe, 64),
        decreases sq_sum(it.0, one_fn(), 64),
    {
        let ghost before = it.0;
        let sq = match it.next() {
            Some(sq) => sq,
            None => {
                assert(false);
                0
            },
        };
        let rank: usize = if black { mirror_sq(sq) / 8 } else { (sq / 8) as usize };
        proof {
            lemma_table_bounds();
            lemma_take_square(before, it.0, sq as int, fm);
            lemma_take_square(before, it.0, sq as int, fe);
            lemma_sq_sum_bound(it.0, fm, 64, 0, 200);
            lemma_sq_sum_bound(it.0, fe, 64, 0, 200);
            lemma_count_nonneg(it.0);
        }
        mg = mg + PASSED_MG[rank];
        eg = eg + PASSED_EG[rank];
    }
    proof {
        lemma_sq_sum_zero(fm, 64);
        lemma_sq_sum_zero(fe, 64);
    }
    (mg, eg)
}

/// The king distance of two squares (a square number up to 64, the number
/// of an empty board's lowest square, is taken at face value).
fn chebyshev(a: usize, b: usize) -> (r: i32)
    requires
        a <= 64,
        b <= 64,
    ensures
        r == cheb(a as int, b as int),
        0 <= r <= 8,
{
    let ar = (a / 8) as i32;
    let br = (b / 8) as i32;
    let af = (a % 8) as i32;
    let bf = (b % 8) as i32;
    let dr = if ar >= br { ar - br } else { br - ar };
    let df = if af >= bf { af - bf } else { bf - af };
    if dr >= df {
        dr
    } else {
        df
    }
}

/// The kings' distance bonuses over the passed pawns `b`.
fn king_prox_sum(b: u64, wk: usize, bk: usize, black: bool) -> (r: i32)
    requires
        wk <= 64,
        bk <= 64,
    ensures
        r == sq_sum(b, king_prox_fn(wk as int, bk as int, black), 64),
        -64 * 280 <= r <= 64 * 280,
{
    let ghost f = king_prox_fn(wk as int, bk as int, black);
    proof {
        assert forall|t: int| 0 <= t < 64 implies -280 <= #[trigger] f(t) <= 280 by {
            let d = if black { cheb(wk as int, t) - cheb(bk as int, t) } else { cheb(bk as int, t) - cheb(wk as int, t) };
            let m = if black { 7 - rank_of(t) } else { rank_of(t) };
            assert(-8 <= d <= 8);
            assert(0 <= m <= 7);
            assert(-280 <= d * 5 * m <= 280) by (nonlinear_arith)
                requires
                    -8 <= d <= 8,
                    0 <= m <= 7,
            ;
        }
        lemma_sq_sum_bound(b, f, 64, -280, 280);
    }
    let mut it = BitIter::new(b);
    let mut acc: i32 = 0;
    while it.0 != 0
        invariant
            wk <= 64,
            bk <= 64,
            f == king_prox_fn(wk as int, bk as int, black),
            forall|t: int| 0 <= t < 64 ==> -280 <= #[trigger] f(t) <= 280,
            acc + sq_sum(it.0, f, 64) == sq_sum(b, f, 64),
            -64 * 280 <= sq_sum(b, f, 64) <= 64 * 280,
            -64 * 280 <= sq_sum(it.0, f, 64) <= 64 * 280,
        decreases sq_sum(it.0, one_fn(), 64),
    {
        let ghost before = it.0;
        let sq = match it.next() {
            Some(sq) => sq,
            None => {
                assert(false);
                0
            },
        };
        let sqi = sq as usize;
        proof {
            lemma_take_square(before, it.0, sq as int, f);
            lemma_sq_sum_bound(it.0, f, 64, -280, 280);
            lemma_count_nonneg(it.0);
        }
        let term = if black {
            (chebyshev(wk, sqi) - chebyshev(bk, sqi)) * 5 * (7 - (sqi / 8) as i32)
        } else {
            (chebyshev(bk, sqi) - chebyshev(wk, sqi)) * 5 * ((sqi / 8) as i32)
        };
        acc = acc + term;
    }
    proof {
        lemma_sq_sum_zero(f, 64);
    }
    acc
}

/// The doubled and isolated pawn counts of a side's pawns `x`.
fn pawn_files(x: u64) -> (r: (i32, i32))
    ensures
        r.0 == doubled(x, 8),
        r.1 == isolated(x, 8),
        0 <= r.0 <= 512,
        0 <= r.1 <= 512,
{
    let mut dbl: i32 = 0;
    let mut iso: i32 = 0;
    let mut file: usize = 0;
    while file < 8
        invariant
            file <= 8,
            dbl == doubled(x, file as int),
            iso == isolated(x, file as int),
            0 <= dbl <= 64 * file,
            0 <= iso <= 64 * file,
        decreases 8 - file,
    {
        let mask = FILE_A << (file as u64);
        let n = count_ones((x & mask) >> (file as u64));
        proof {
            lemma_popcount_le_64((x & mask) >> (file as u64));
            lemma_popcount_le_64(x & mask);
        }
        if n > 1 {
            dbl = dbl + (n as i32 - 1);
        }
        let left: u64 = if file > 0 { FILE_A << ((file - 1) as u64) } else { 0 };
        let right: u64 = if file < 7 { FILE_A << ((file + 1) as u64) } else { 0 };
        proof {
            assert(neighbours(file as int) == left | right);
        }
        if x & mask != 0 && (x & (left | right)) == 0 {
            iso = iso + count_ones(x & mask) as i32;
        }
        file = file + 1;
    }
    (dbl, iso)
}

/// The static evaluation from the side to move's point of view: material
/// and piece-square tables, passed pawns (with the kings' distances to
/// them in the endgame), doubled and isolated pawns, blended between the
/// middlegame and the endgame by the phase.
pub fn evaluate(pos: &Position) -> (r: i32)
    ensures
        r == evaluation(pos.view(), pos.side_to_move),
        -8_000_000 <= r <= 8_000_000,
{
    let ghost v = pos.view();
    let phase = game_phase(pos);
    let mut mg: i32 = 0;
    let mut eg: i32 = 0;
    let mut piece: usize = 0;
    while piece < 6
        invariant
            piece <= 6,
            v == pos.view(),
            mg == psq_total(v, true, piece as int),
            eg == psq_total(v, false, piece as int),
            -(piece as int) * 645120 <= mg <= (piece as int) * 645120,
            -(piece as int) * 645120 <= eg <= (piece as int) * 645120,
        decreases 6 - piece,
    {
        let (wm, we) = psq_sums(pos.bitboards.pieces[0][piece], piece, false);
        let (bm, be) = psq_sums(pos.bitboards.pieces[1][piece], piece, true);
        proof {
            assert(v.pieces[pidx(0, piece as int)] == pos.bitboards.pieces[0][piece as int]);
            assert(v.pieces[pidx(1, piece as int)] == pos.bitboards.pieces[1][piece as int]);
        }
        mg = mg + wm - bm;
        eg = eg + we - be;
        piece = piece + 1;
    }
    let wp = pos.bitboards.pieces[0][0];
    let bp = pos.bitboards.pieces[1][0];
    proof {
        assert(v.pieces[pidx(0, 0)] == wp);
        assert(v.pieces[pidx(1, 0)] == bp);
        assert(v.pieces[pidx(0, 5)] == pos.bitboards.pieces[0][5]);
        assert(v.pieces[pidx(1, 5)] == pos.bitboards.pieces[1][5]);
    }
    let mut tmp = bp | ((bp & NOT_H_FILE) << 1u64) | ((bp & NOT_A_FILE) >> 1u64);
    tmp = tmp | (tmp >> 8u64);
    tmp = tmp | (tmp >> 16u64);
    tmp = tmp | (tmp >> 32u64);
    let w_passed = wp & !tmp;
    let mut tmp = wp | ((wp & NOT_H_FILE) << 1u64) | ((wp & NOT_A_FILE) >> 1u64);
    tmp = tmp | (tmp << 8u64);
    tmp = tmp | (tmp << 16u64);
    tmp = tmp | (tmp << 32u64);
    let b_passed = bp & !tmp;
    proof {
        assert(w_passed == white_passed(v));
        assert(b_passed == black_passed(v));
    }
    let (wpm, wpe) = passed_sums(w_passed, false);
    let (bpm, bpe) = passed_sums(b_passed, true);
    mg = mg + wpm - bpm;
    eg = eg + wpe - bpe;
    let (w_doubled, w_isolated) = pawn_files(wp);
    let (b_doubled, b_isolated) = pawn_files(bp);
    mg = mg + (b_doubled - w_doubled) * 15;
    eg = eg + (b_doubled - w_doubled) * 25;
    mg = mg + (b_isolated - w_isolated) * 15;
    eg = eg + (b_isolated - w_isolated) * 20;
    let wk = pos.bitboards.pieces[0][5].trailing_zeros() as usize;
    let bk = pos.bitboards.pieces[1][5].trailing_zeros() as usize;
    proof {
        vstd::std_specs::bits::axiom_u64_trailing_zeros(pos.bitboards.pieces[0][5]);
        vstd::std_specs::bits::axiom_u64_trailing_zeros(pos.bitboards.pieces[1][5]);
    }
    eg = eg + king_prox_sum(w_passed, wk, bk, false);
    eg = eg - king_prox_sum(b_passed, wk, bk, true);
    proof {
        reveal_with_fuel(psq_total, 7);
        assert(-3_898_880 <= mg <= 3_898_880);
        assert(-3_942_400 <= eg <= 3_942_400);
        assert(-96_000_000 <= mg * phase <= 96_000_000) by (nonlinear_arith)
            requires
                -4_000_000 <= mg <= 4_000_000,
                0 <= phase <= 24,
        ;
        assert(-96_000_000 <= eg * (24 - phase) <= 96_000_000) by (nonlinear_arith)
            requires
                -4_000_000 <= eg <= 4_000_000,
                0 <= phase <= 24,
        ;
    }
    let num = mg * phase + eg * (24 - phase);
    let score = if num >= 0 {
        num / 24
    } else {
        -((-num) / 24)
    };
    if pos.side_to_move == Color::White {
        score
    } else {
        -score
    }
}

/// The material balance stays within the value of 64 of each kind.
pub proof fn lemma_material_bound(v: BoardView)
    ensures
        -777_600 <= material(v) <= 777_600,
{
    lemma_popcount_le_64(v.pieces[pidx(0, 0)]);
    lemma_popcount_le_64(v.pieces[pidx(1, 0)]);
    lemma_popcount_le_64(v.pieces[pidx(0, 1)]);
    lemma_popcount_le_64(v.pieces[pidx(1, 1)]);
    lemma_popcount_le_64(v.pieces[pidx(0, 2)]);
    lemma_popcount_le_64(v.pieces[pidx(1, 2)]);
    lemma_popcount_le_64(v.pieces[pidx(0, 3)]);
    lemma_popcount_le_64(v.pieces[pidx(1, 3)]);
    lemma_popcount_le_64(v.pieces[pidx(0, 4)]);
    lemma_popcount_le_64(v.pieces[pidx(1, 4)]);
    lemma_popcount_le_64(v.pieces[pidx(0, 5)]);
    lemma_popcount_le_64(v.pieces[pidx(1, 5)]);
}

} // verus!

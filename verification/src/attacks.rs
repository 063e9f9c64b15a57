//! Which squares a piece on a square attacks.
//!
//! Squares are numbered rank by rank: square `s` is on rank `s / 8` and file
//! `s % 8`.
use vstd::prelude::*;
use crate::bits::{bit, sq_mask, group_bit_lemmas};

verus! {

broadcast use group_bit_lemmas;

pub open spec fn rank_of(s: int) -> int {
    s / 8
}

pub open spec fn file_of(s: int) -> int {
    s % 8
}

pub open spec fn on_board(r: int, f: int) -> bool {
    0 <= r < 8 && 0 <= f < 8
}

pub open spec fn abs(x: int) -> int {
    if x < 0 {
        -x
    } else {
        x
    }
}

/// A knight on `a` attacks `t`: two ranks and one file apart, or the other way.
pub open spec fn knight_step(a: int, t: int) -> bool {
    let dr = abs(rank_of(t) - rank_of(a));
    let df = abs(file_of(t) - file_of(a));
    &&& 0 <= a < 64
    &&& 0 <= t < 64
    &&& ((dr == 1 && df == 2) || (dr == 2 && df == 1))
}

/// A king on `a` attacks `t`: a neighbouring square.
pub open spec fn king_step(a: int, t: int) -> bool {
    let dr = abs(rank_of(t) - rank_of(a));
    let df = abs(file_of(t) - file_of(a));
    &&& 0 <= a < 64
    &&& 0 <= t < 64
    &&& dr <= 1
    &&& df <= 1
    &&& !(dr == 0 && df == 0)
}

/// A pawn of color `c` (0 White, 1 Black) on `a` attacks `t`: one rank
/// forward for its color and one file aside.
pub open spec fn pawn_step(c: int, a: int, t: int) -> bool {
    &&& 0 <= a < 64
    &&& 0 <= t < 64
    &&& abs(file_of(t) - file_of(a)) == 1
    &&& if c == 0 {
        rank_of(t) == rank_of(a) + 1
    } else {
        rank_of(t) == rank_of(a) - 1
    }
}

/// `k` times a direction component `d` in {-1, 0, 1}.
pub open spec fn times(k: int, d: int) -> int {
    if d == 1 {
        k
    } else if d == -1 {
        -k
    } else {
        0
    }
}

/// The square `k` steps from `a` in direction `(dr, df)` (ranks, files).
pub open spec fn ray_square(a: int, dr: int, df: int, k: int) -> int {
    (rank_of(a) + times(k, dr)) * 8 + file_of(a) + times(k, df)
}

pub open spec fn ray_on_board(a: int, dr: int, df: int, k: int) -> bool {
    on_board(rank_of(a) + times(k, dr), file_of(a) + times(k, df))
}

/// Walking from `a` in direction `(dr, df)`, starting at step `k`, the walk
/// reaches `t` before it leaves the board or passes an occupied square of
/// `occ`. (The occupied square it stops at is reached.)
pub open spec fn ray_reaches(occ: u64, a: int, dr: int, df: int, k: int, t: int) -> bool
    decreases 9 - k,
{
    if k < 1 || k > 8 || !ray_on_board(a, dr, df, k) {
        false
    } else if t == ray_square(a, dr, df, k) {
        true
    } else if bit(occ, ray_square(a, dr, df, k)) {
        false
    } else {
        ray_reaches(occ, a, dr, df, k + 1, t)
    }
}

/// A slider's target is a square.
pub proof fn lemma_reach_range(occ: u64, a: int, t: int)
    requires
        0 <= a < 64,
    ensures
        bishop_reach(occ, a, t) ==> 0 <= t < 64,
        rook_reach(occ, a, t) ==> 0 <= t < 64,
{
    lemma_ray_reaches_range(occ, a, 1, 1, 1, t);
    lemma_ray_reaches_range(occ, a, 1, -1, 1, t);
    lemma_ray_reaches_range(occ, a, -1, 1, 1, t);
    lemma_ray_reaches_range(occ, a, -1, -1, 1, t);
    lemma_ray_reaches_range(occ, a, 1, 0, 1, t);
    lemma_ray_reaches_range(occ, a, -1, 0, 1, t);
    lemma_ray_reaches_range(occ, a, 0, 1, 1, t);
    lemma_ray_reaches_range(occ, a, 0, -1, 1, t);
}

/// A bishop on `a` attacks `t` when `occ` is occupied.
pub open spec fn bishop_reach(occ: u64, a: int, t: int) -> bool {
    ||| ray_reaches(occ, a, 1, 1, 1, t)
    ||| ray_reaches(occ, a, 1, -1, 1, t)
    ||| ray_reaches(occ, a, -1, 1, 1, t)
    ||| ray_reaches(occ, a, -1, -1, 1, t)
}

/// A rook on `a` attacks `t` when `occ` is occupied.
pub open spec fn rook_reach(occ: u64, a: int, t: int) -> bool {
    ||| ray_reaches(occ, a, 1, 0, 1, t)
    ||| ray_reaches(occ, a, -1, 0, 1, t)
    ||| ray_reaches(occ, a, 0, 1, 1, t)
    ||| ray_reaches(occ, a, 0, -1, 1, t)
}

pub proof fn lemma_ray_reaches_range(occ: u64, a: int, dr: int, df: int, k: int, t: int)
    requires
        0 <= a < 64,
    ensures
        ray_reaches(occ, a, dr, df, k, t) ==> 0 <= t < 64,
    decreases 9 - k,
{
    if k >= 1 && k <= 8 && ray_on_board(a, dr, df, k) && t != ray_square(a, dr, df, k) && !bit(
        occ,
        ray_square(a, dr, df, k),
    ) {
        lemma_ray_reaches_range(occ, a, dr, df, k + 1, t);
    }
}

/// Steps `k` up to `j` (not included) of the walk are on the board and empty.
pub open spec fn clear_steps(occ: u64, a: int, dr: int, df: int, k: int, j: int) -> bool {
    forall|i: int|
        k <= i < j ==> ray_on_board(a, dr, df, i) && !bit(occ, #[trigger] ray_square(a, dr, df, i))
}

proof fn lemma_reaches_witness(occ: u64, a: int, dr: int, df: int, k: int, t: int)
    requires
        1 <= k,
        ray_reaches(occ, a, dr, df, k, t),
    ensures
        exists|j: int|
            k <= j <= 8 && ray_on_board(a, dr, df, j) && t == ray_square(a, dr, df, j)
                && #[trigger] clear_steps(occ, a, dr, df, k, j),
    decreases 9 - k,
{
    if t == ray_square(a, dr, df, k) {
        assert(clear_steps(occ, a, dr, df, k, k));
    } else {
        lemma_reaches_witness(occ, a, dr, df, k + 1, t);
        let j = choose|j: int|
            k + 1 <= j <= 8 && ray_on_board(a, dr, df, j) && t == ray_square(a, dr, df, j)
                && #[trigger] clear_steps(occ, a, dr, df, k + 1, j);
        assert(clear_steps(occ, a, dr, df, k, j));
    }
}

proof fn lemma_witness_reaches(occ: u64, a: int, dr: int, df: int, k: int, j: int, t: int)
    requires
        1 <= k <= j <= 8,
        ray_on_board(a, dr, df, j),
        t == ray_square(a, dr, df, j),
        clear_steps(occ, a, dr, df, k, j),
    ensures
        ray_reaches(occ, a, dr, df, k, t),
    decreases j - k,
{
    if k < j {
        let sk = ray_square(a, dr, df, k);
        assert(ray_on_board(a, dr, df, k) && !bit(occ, sk));
        if t != ray_square(a, dr, df, k) {
            assert(clear_steps(occ, a, dr, df, k + 1, j));
            lemma_witness_reaches(occ, a, dr, df, k + 1, j, t);
        }
    }
}

/// What a walk reaches from `a`, a walk the other way from there reaches `a`.
pub proof fn lemma_ray_symmetric(occ: u64, a: int, dr: int, df: int, t: int)
    requires
        0 <= a < 64,
        -1 <= dr <= 1,
        -1 <= df <= 1,
        ray_reaches(occ, a, dr, df, 1, t),
    ensures
        ray_reaches(occ, t, -dr, -df, 1, a),
{
    lemma_reaches_witness(occ, a, dr, df, 1, t);
    let j = choose|j: int|
        1 <= j <= 8 && ray_on_board(a, dr, df, j) && t == ray_square(a, dr, df, j)
            && #[trigger] clear_steps(occ, a, dr, df, 1, j);
    assert(rank_of(t) == rank_of(a) + times(j, dr));
    assert(file_of(t) == file_of(a) + times(j, df));
    assert forall|i: int| 1 <= i < j implies ray_on_board(t, -dr, -df, i) && !bit(occ, #[trigger] ray_square(t, -dr, -df, i)) by {
        assert(ray_square(t, -dr, -df, i) == ray_square(a, dr, df, j - i));
        assert(ray_on_board(a, dr, df, j - i) && !bit(occ, ray_square(a, dr, df, j - i)));
    }
    assert(clear_steps(occ, t, -dr, -df, 1, j));
    assert(ray_square(t, -dr, -df, j) == a);
    lemma_witness_reaches(occ, t, -dr, -df, 1, j, a);
}

/// A bishop's attack goes both ways.
pub proof fn lemma_bishop_symmetric(occ: u64, a: int, t: int)
    requires
        0 <= a < 64,
        bishop_reach(occ, a, t),
    ensures
        bishop_reach(occ, t, a),
{
    if ray_reaches(occ, a, 1, 1, 1, t) {
        lemma_ray_symmetric(occ, a, 1, 1, t);
    } else if ray_reaches(occ, a, 1, -1, 1, t) {
        lemma_ray_symmetric(occ, a, 1, -1, t);
    } else if ray_reaches(occ, a, -1, 1, 1, t) {
        lemma_ray_symmetric(occ, a, -1, 1, t);
    } else {
        lemma_ray_symmetric(occ, a, -1, -1, t);
    }
}

/// A rook's attack goes both ways.
pub proof fn lemma_rook_symmetric(occ: u64, a: int, t: int)
    requires
        0 <= a < 64,
        rook_reach(occ, a, t),
    ensures
        rook_reach(occ, t, a),
{
    if ray_reaches(occ, a, 1, 0, 1, t) {
        lemma_ray_symmetric(occ, a, 1, 0, t);
    } else if ray_reaches(occ, a, -1, 0, 1, t) {
        lemma_ray_symmetric(occ, a, -1, 0, t);
    } else if ray_reaches(occ, a, 0, 1, 1, t) {
        lemma_ray_symmetric(occ, a, 0, 1, t);
    } else {
        lemma_ray_symmetric(occ, a, 0, -1, t);
    }
}

/// Bitboard with `t` added when `(r, f)` is on the board and `t` is its square.
fn add_target(att: u64, r: i32, f: i32) -> (res: u64)
    requires
        -8 <= r <= 16,
        -8 <= f <= 16,
    ensures
        forall|t: int| #[trigger]
            bit(res, t) <==> (bit(att, t) || (on_board(r as int, f as int) && t == r * 8 + f)),
{
    if 0 <= r && r < 8 && 0 <= f && f < 8 {
        let s = (r * 8 + f) as u64;
        proof {
            assert forall|t: int| #[trigger] bit(att | (1u64 << s), t) <==> (bit(att, t) || (on_board(r as int, f as int) && t == r * 8 + f)) by {
                if 0 <= t < 64 {
                    assert(bit(sq_mask(s as int), t) <==> t == s);
                }
            }
        }
        att | (1u64 << s)
    } else {
        att
    }
}

/// The squares a knight on `sq` attacks.
pub fn knight_attacks(sq: u8) -> (res: u64)
    requires
        sq < 64,
    ensures
        forall|t: int| #[trigger] bit(res, t) <==> knight_step(sq as int, t),
{
    let r = (sq / 8) as i32;
    let f = (sq % 8) as i32;
    let mut att = 0u64;
    att = add_target(att, r + 2, f + 1);
    att = add_target(att, r + 2, f - 1);
    att = add_target(att, r - 2, f + 1);
    att = add_target(att, r - 2, f - 1);
    att = add_target(att, r + 1, f + 2);
    att = add_target(att, r + 1, f - 2);
    att = add_target(att, r - 1, f + 2);
    att = add_target(att, r - 1, f - 2);
    att
}

/// The squares a king on `sq` attacks.
#[verifier::rlimit(50)]
pub fn king_attacks(sq: u8) -> (res: u64)
    requires
        sq < 64,
    ensures
        forall|t: int| #[trigger] bit(res, t) <==> king_step(sq as int, t),
{
    let r = (sq / 8) as i32;
    let f = (sq % 8) as i32;
    let mut att = 0u64;
    att = add_target(att, r + 1, f - 1);
    att = add_target(att, r + 1, f);
    att = add_target(att, r + 1, f + 1);
    att = add_target(att, r, f - 1);
    att = add_target(att, r, f + 1);
    att = add_target(att, r - 1, f - 1);
    att = add_target(att, r - 1, f);
    att = add_target(att, r - 1, f + 1);
    att
}

/// The squares a pawn of color `color` (0 White, 1 Black) on `sq` attacks.
pub fn pawn_attacks(color: usize, sq: u8) -> (res: u64)
    requires
        color < 2,
        sq < 64,
    ensures
        forall|t: int| #[trigger] bit(res, t) <==> pawn_step(color as int, sq as int, t),
{
    let r = (sq / 8) as i32;
    let f = (sq % 8) as i32;
    let dr: i32 = if color == 0 {
        1
    } else {
        -1
    };
    let mut att = 0u64;
    att = add_target(att, r + dr, f - 1);
    att = add_target(att, r + dr, f + 1);
    att
}

/// The squares reached from `sq` walking in direction `(dr, df)` until the
/// board ends or an occupied square of `occ` is met (that square included).
pub fn ray_attacks(sq: u8, dr: i32, df: i32, occ: u64) -> (res: u64)
    requires
        sq < 64,
        -1 <= dr <= 1,
        -1 <= df <= 1,
        !(dr == 0 && df == 0),
    ensures
        forall|t: int| #[trigger] bit(res, t) <==> ray_reaches(occ, sq as int, dr as int, df as int, 1, t),
{
    let r0 = (sq / 8) as i32;
    let f0 = (sq % 8) as i32;
    let mut att = 0u64;
    let mut k: i32 = 1;
    let mut r = r0 + dr;
    let mut f = f0 + df;
    loop
        invariant
            1 <= k <= 8,
            r == r0 + times(k as int, dr as int),
            f == f0 + times(k as int, df as int),
            r0 == sq / 8,
            f0 == sq % 8,
            -1 <= dr <= 1,
            -1 <= df <= 1,
            !(dr == 0 && df == 0),
            sq < 64,
            forall|t: int| #[trigger]
                ray_reaches(occ, sq as int, dr as int, df as int, 1, t) == (bit(att, t)
                    || ray_reaches(occ, sq as int, dr as int, df as int, k as int, t)),
        decreases 8 - k,
    {
        if !(0 <= r && r < 8 && 0 <= f && f < 8) {
            return att;
        }
        let s = (r * 8 + f) as u8;
        let hit = (occ >> s) & 1 == 1;
        assert(hit == bit(occ, s as int));
        let ghost old_att = att;
        att = att | (1u64 << s);
        proof {
            assert forall|t: int| #[trigger] bit(att, t) <==> (bit(old_att, t) || t == s) by {
                if 0 <= t < 64 {
                    assert(bit(sq_mask(s as int), t) <==> t == s);
                }
            }
        }
        if hit {
            return att;
        }
        if k == 7 {
            proof {
                assert(!ray_on_board(sq as int, dr as int, df as int, 8));
                assert forall|t: int| !ray_reaches(occ, sq as int, dr as int, df as int, 8, t) by {}
                assert forall|t: int| ray_reaches(occ, sq as int, dr as int, df as int, k as int, t) == (t == s) by {
                    assert(ray_on_board(sq as int, dr as int, df as int, k as int));
                    assert(ray_square(sq as int, dr as int, df as int, k as int) == s);
                    assert(k + 1 == 8);
                    assert(!bit(occ, s as int));
                    assert(!ray_reaches(occ, sq as int, dr as int, df as int, k + 1, t));
                }
            }
            return att;
        }
        k = k + 1;
        r = r + dr;
        f = f + df;
    }
}

/// The squares a bishop on `sq` attacks when `occ` is occupied.
pub fn bishop_attacks(sq: u8, occ: u64) -> (res: u64)
    requires
        sq < 64,
    ensures
        forall|t: int| #[trigger] bit(res, t) <==> bishop_reach(occ, sq as int, t),
{
    ray_attacks(sq, 1, 1, occ) | ray_attacks(sq, 1, -1, occ) | ray_attacks(sq, -1, 1, occ)
        | ray_attacks(sq, -1, -1, occ)
}

/// The squares a rook on `sq` attacks when `occ` is occupied.
pub fn rook_attacks(sq: u8, occ: u64) -> (res: u64)
    requires
        sq < 64,
    ensures
        forall|t: int| #[trigger] bit(res, t) <==> rook_reach(occ, sq as int, t),
{
    ray_attacks(sq, 1, 0, occ) | ray_attacks(sq, -1, 0, occ) | ray_attacks(sq, 0, 1, occ)
        | ray_attacks(sq, 0, -1, occ)
}

} // verus!

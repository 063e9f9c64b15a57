//! Bit-level facts about 64-bit boards: one bit per square, bit `i` standing
//! for square `i` (a1 = 0, h8 = 63).
use vstd::prelude::*;
use vstd::std_specs::bits::{u64_trailing_zeros, axiom_u64_trailing_zeros};

verus! {

/// Whether square `i` is set in the board `x`.
pub open spec fn bit(x: u64, i: int) -> bool {
    0 <= i < 64 && (x >> (i as u64)) & 1u64 == 1u64
}

/// The board with only square `s` set.
pub open spec fn sq_mask(s: int) -> u64 {
    1u64 << (s as u64)
}

proof fn bv_single(s: u64, t: u64)
    by (bit_vector)
    requires
        s < 64,
        t < 64,
    ensures
        ((1u64 << s) >> t) & 1u64 == 1u64 <==> t == s,
{
}

proof fn bv_or(x: u64, y: u64, t: u64)
    by (bit_vector)
    requires
        t < 64,
    ensures
        ((x | y) >> t) & 1u64 == 1u64 <==> (((x >> t) & 1u64 == 1u64) || ((y >> t) & 1u64 == 1u64)),
{
}

proof fn bv_and(x: u64, y: u64, t: u64)
    by (bit_vector)
    requires
        t < 64,
    ensures
        ((x & y) >> t) & 1u64 == 1u64 <==> (((x >> t) & 1u64 == 1u64) && ((y >> t) & 1u64 == 1u64)),
{
}

proof fn bv_not(x: u64, t: u64)
    by (bit_vector)
    requires
        t < 64,
    ensures
        ((!x) >> t) & 1u64 == 1u64 <==> !((x >> t) & 1u64 == 1u64),
{
}

proof fn bv_xor(x: u64, y: u64, t: u64)
    by (bit_vector)
    requires
        t < 64,
    ensures
        ((x ^ y) >> t) & 1u64 == 1u64 <==> (((x >> t) & 1u64 == 1u64) != ((y >> t) & 1u64 == 1u64)),
{
}

proof fn bv_zero(t: u64)
    by (bit_vector)
    requires
        t < 64,
    ensures
        !((0u64 >> t) & 1u64 == 1u64),
{
}

pub broadcast proof fn lemma_bit_single(s: int, t: int)
    requires
        0 <= s < 64,
        0 <= t < 64,
    ensures
        #[trigger] bit(sq_mask(s), t) <==> t == s,
{
    bv_single(s as u64, t as u64);
}

pub broadcast proof fn lemma_bit_or(x: u64, y: u64, t: int)
    ensures
        #[trigger] bit(x | y, t) <==> (bit(x, t) || bit(y, t)),
{
    if 0 <= t < 64 {
        bv_or(x, y, t as u64);
    }
}

pub broadcast proof fn lemma_bit_and(x: u64, y: u64, t: int)
    ensures
        #[trigger] bit(x & y, t) <==> (bit(x, t) && bit(y, t)),
{
    if 0 <= t < 64 {
        bv_and(x, y, t as u64);
    }
}

pub broadcast proof fn lemma_bit_not(x: u64, t: int)
    requires
        0 <= t < 64,
    ensures
        #[trigger] bit(!x, t) <==> !bit(x, t),
{
    bv_not(x, t as u64);
}

pub broadcast proof fn lemma_bit_xor(x: u64, y: u64, t: int)
    ensures
        #[trigger] bit(x ^ y, t) <==> (bit(x, t) != bit(y, t)),
{
    if 0 <= t < 64 {
        bv_xor(x, y, t as u64);
    }
}

pub broadcast proof fn lemma_bit_zero(t: int)
    ensures
        !#[trigger] bit(0u64, t),
{
    if 0 <= t < 64 {
        bv_zero(t as u64);
    }
}

pub broadcast group group_bit_lemmas {
    lemma_bit_single,
    lemma_bit_or,
    lemma_bit_and,
    lemma_bit_not,
    lemma_bit_xor,
    lemma_bit_zero,
}

/// A board with no square set is zero, and the other way round.
pub proof fn lemma_zero_iff_empty(x: u64)
    ensures
        x == 0 <==> (forall|t: int| 0 <= t < 64 ==> !#[trigger] bit(x, t)),
{
    broadcast use axiom_u64_trailing_zeros;
    broadcast use lemma_bit_zero;

    if x != 0 {
        let z = u64_trailing_zeros(x);
        assert(bit(x, z as int));
    }
}

/// The lowest set square of a non-empty board, and the board without it.
pub proof fn lemma_lowest_bit(x: u64)
    requires
        x != 0,
    ensures
        0 <= u64_trailing_zeros(x) < 64,
        bit(x, u64_trailing_zeros(x) as int),
        forall|t: int| 0 <= t < u64_trailing_zeros(x) ==> !#[trigger] bit(x, t),
        forall|t: int| #[trigger]
            bit(x & ((x - 1) as u64), t) <==> (bit(x, t) && t != u64_trailing_zeros(x) as int),
{
    broadcast use axiom_u64_trailing_zeros;

    let z = u64_trailing_zeros(x) as u64;
    assert(forall|t: int| 0 <= t < u64_trailing_zeros(x) ==> !#[trigger] bit(x, t)) by {
        assert forall|t: int| 0 <= t < u64_trailing_zeros(x) implies !#[trigger] bit(x, t) by {
            assert((x >> (t as u64)) & 1u64 == 0u64);
        }
    }
    let m = ((1u64 << z) - 1) as u64;
    assert forall|t: int| 0 <= t < 64 implies !#[trigger] bit(x & m, t) by {
        let tt = t as u64;
        assert(z < 64 && tt < 64 ==> (((((1u64 << z) - 1) as u64) >> tt) & 1u64 == 1u64 <==> tt
            < z)) by (bit_vector);
        lemma_bit_and(x, m, t);
    }
    lemma_zero_iff_empty(x & m);
    assert forall|t: int| #[trigger]
        bit(x & ((x - 1) as u64), t) <==> (bit(x, t) && t != u64_trailing_zeros(x) as int) by {
        if 0 <= t < 64 {
            let tt = t as u64;
            assert(z < 64 && (x >> z) & 1u64 == 1u64 && x & (((1u64 << z) - 1) as u64) == 0 && tt
                < 64 ==> ((((x & ((x - 1) as u64)) >> tt) & 1u64 == 1u64) <==> (((x >> tt) & 1u64
                == 1u64) && tt != z))) by (bit_vector);
        }
    }
}

/// Two boards with the same squares set are equal.
pub proof fn lemma_ext(x: u64, y: u64)
    requires
        forall|t: int| 0 <= t < 64 ==> (#[trigger] bit(x, t) <==> bit(y, t)),
    ensures
        x == y,
{
    let d = x ^ y;
    broadcast use lemma_bit_xor;

    assert forall|t: int| 0 <= t < 64 implies !#[trigger] bit(d, t) by {
        assert(bit(x, t) <==> bit(y, t));
    }
    lemma_zero_iff_empty(d);
    assert(x ^ y == 0u64 ==> x == y) by (bit_vector);
}

/// A board or'ed with the empty board, on either side, is itself.
pub proof fn lemma_or_zero(x: u64)
    ensures
        x | 0u64 == x,
        0u64 | x == x,
        0u64 | 0u64 == 0u64,
{
    assert(x | 0u64 == x && 0u64 | x == x && 0u64 | 0u64 == 0u64) by (bit_vector);
}

/// A board with one square set has one square set.
pub proof fn lemma_popcount_single(s: int)
    requires
        0 <= s < 64,
    ensures
        popcount(sq_mask(s)) == 1,
    decreases s,
{
    let x = sq_mask(s);
    let su = s as u64;
    assert((su == 0 ==> 1u64 << su == 1u64) && (0 < su ==> (1u64 << su) % 2 == 0 && (1u64 << su) / 2 == 1u64 << ((su - 1) as u64)
        && (1u64 << su) != 0)) by (bit_vector)
        requires
            su < 64,
    ;
    if s == 0 {
        assert(popcount(0u64) == 0);
        assert(x == 1u64);
        assert(x % 2 == 1 && x / 2 == 0);
    } else {
        lemma_popcount_single(s - 1);
        assert(sq_mask(s - 1) == 1u64 << ((su - 1) as u64));
    }
}

/// The number of squares set in a board.
pub open spec fn popcount(x: u64) -> nat
    decreases x,
{
    if x == 0 {
        0
    } else {
        (x % 2) as nat + popcount(x / 2)
    }
}

/// `u64::count_ones`: the number of one bits of `x`, which is `popcount(x)`.
#[verifier::external_body]
pub(crate) fn count_ones(x: u64) -> (r: u32)
    ensures
        r as nat == popcount(x),
{
    x.count_ones()
}

/// `u64::trailing_zeros`, by which a board's lowest square is found.
pub fn lowest_square(x: u64) -> (r: u8)
    requires
        x != 0,
    ensures
        r < 64,
        r as u32 == u64_trailing_zeros(x),
        bit(x, r as int),
        forall|t: int| 0 <= t < r ==> !#[trigger] bit(x, t),
{
    proof {
        lemma_lowest_bit(x);
    }
    x.trailing_zeros() as u8
}

/// Whether square `s` is set in `x`.
pub fn is_set(x: u64, s: u8) -> (r: bool)
    requires
        s < 64,
    ensures
        r == bit(x, s as int),
{
    (x >> s) & 1 == 1
}

/// Iterates the squares of a board, lowest first.
pub struct BitIter(pub u64);

impl BitIter {
    pub fn new(bits: u64) -> (r: BitIter)
        ensures
            r.0 == bits,
    {
        BitIter(bits)
    }

    /// The lowest square still left, which is taken out; `None` once none is left.
    pub fn next(&mut self) -> (r: Option<u8>)
        ensures
            old(self).0 == 0 ==> r is None && final(self).0 == 0,
            old(self).0 != 0 ==> r == Some(u64_trailing_zeros(old(self).0) as u8)
                && final(self).0 == old(self).0 & ((old(self).0 - 1) as u64),
            r matches Some(s) ==> s < 64 && bit(old(self).0, s as int) && (forall|t: int|
                #[trigger] bit(final(self).0, t) <==> (bit(old(self).0, t) && t != s)),
    {
        if self.0 == 0 {
            return None;
        }
        let lsb = lowest_square(self.0);
        proof {
            lemma_lowest_bit(self.0);
        }
        self.0 = self.0 & (self.0 - 1);
        Some(lsb)
    }
}

} // verus!

//! A xorshift random generator and the Zobrist keys drawn from it.
use vstd::prelude::*;

verus! {

/// One xorshift32 step.
pub open spec fn xorshift(x: u32) -> u32 {
    let a = x ^ (x << 13u32);
    let b = a ^ (a >> 17u32);
    b ^ (b << 5u32)
}

/// The generator's state after `n` steps from `seed`.
pub open spec fn xorshift_n(seed: u32, n: nat) -> u32
    decreases n,
{
    if n == 0 {
        seed
    } else {
        xorshift(xorshift_n(seed, (n - 1) as nat))
    }
}

/// Four 32-bit draws joined into 64 bits, 16 low bits of each, first draw lowest.
pub open spec fn join16(a: u32, b: u32, c: u32, d: u32) -> u64 {
    ((a as u64) & 0xFFFF) | (((b as u64) & 0xFFFF) << 16u64) | (((c as u64) & 0xFFFF) << 32u64)
        | (((d as u64) & 0xFFFF) << 48u64)
}

/// The `n`-th 64-bit draw (from 0) of a generator started at `seed`.
pub open spec fn draw64(seed: u32, n: nat) -> u64 {
    join16(
        xorshift_n(seed, 4 * n + 1),
        xorshift_n(seed, 4 * n + 2),
        xorshift_n(seed, 4 * n + 3),
        xorshift_n(seed, 4 * n + 4),
    )
}

pub struct Rng {
    pub state: u32,
}

impl Rng {
    pub fn new(seed: u32) -> (r: Rng)
        ensures
            r.state == seed,
    {
        Rng { state: seed }
    }

    pub fn next_u32(&mut self) -> (r: u32)
        ensures
            r == xorshift(old(self).state),
            final(self).state == r,
    {
        self.state = self.state ^ (self.state << 13);
        self.state = self.state ^ (self.state >> 17);
        self.state = self.state ^ (self.state << 5);
        self.state
    }

    pub fn next_u64(&mut self) -> (r: u64)
        ensures
            r == join16(
                xorshift(old(self).state),
                xorshift(xorshift(old(self).state)),
                xorshift(xorshift(xorshift(old(self).state))),
                final(self).state,
            ),
            final(self).state == xorshift(xorshift(xorshift(xorshift(old(self).state)))),
    {
        let n1 = (self.next_u32() as u64) & 0xFFFF;
        let n2 = (self.next_u32() as u64) & 0xFFFF;
        let n3 = (self.next_u32() as u64) & 0xFFFF;
        let n4 = (self.next_u32() as u64) & 0xFFFF;
        n1 | (n2 << 16) | (n3 << 32) | (n4 << 48)
    }

    /// Three draws anded together: a sparse random number.
    pub fn generate_magic_number(&mut self) -> (r: u64)
        ensures
            r == draw64(old(self).state, 0) & draw64(old(self).state, 1) & draw64(old(self).state, 2),
            final(self).state == xorshift_n(old(self).state, 12),
    {
        let ghost s0 = self.state;
        proof {
            assert(xorshift_n(s0, 0) == s0);
        }
        let a = self.next_u64();
        proof {
            lemma_next_u64(s0, 0, s0);
            reveal_with_fuel(xorshift_n, 5);
            assert(self.state == xorshift_n(s0, 4));
        }
        let b = self.next_u64();
        proof {
            lemma_next_u64(s0, 1, xorshift_n(s0, 4));
            reveal_with_fuel(xorshift_n, 5);
            assert(xorshift_n(s0, 8) == xorshift(xorshift(xorshift(xorshift(xorshift_n(s0, 4))))));
        }
        let c = self.next_u64();
        proof {
            lemma_next_u64(s0, 2, xorshift_n(s0, 8));
            reveal_with_fuel(xorshift_n, 5);
            assert(xorshift_n(s0, 12) == xorshift(xorshift(xorshift(xorshift(xorshift_n(s0, 8))))));
        }
        a & b & c
    }
}

pub proof fn lemma_next_u64(seed: u32, n: nat, st: u32)
    requires
        st == xorshift_n(seed, 4 * n),
    ensures
        join16(
            xorshift(st),
            xorshift(xorshift(st)),
            xorshift(xorshift(xorshift(st))),
            xorshift(xorshift(xorshift(xorshift(st)))),
        ) == draw64(seed, n),
        xorshift(xorshift(xorshift(xorshift(st)))) == xorshift_n(seed, 4 * (n + 1)),
{
    assert(xorshift_n(seed, 4 * n + 1) == xorshift(st));
    assert(xorshift_n(seed, 4 * n + 2) == xorshift(xorshift(st)));
    assert(xorshift_n(seed, 4 * n + 3) == xorshift(xorshift(xorshift(st))));
    assert(xorshift_n(seed, 4 * n + 4) == xorshift(xorshift(xorshift(xorshift(st)))));
    assert(4 * (n + 1) == 4 * n + 4);
}

/// The seed of the generator the keys are drawn from.
pub open spec fn zobrist_seed() -> u32 {
    0x3D1E32C2u32
}

#[derive(Clone)]
pub struct ZobristKeys {
    /// `pieces[color][piece][square]`
    pub pieces: [[[u64; 64]; 6]; 2],
    pub castling: [u64; 4],
    pub en_passant: [u64; 8],
    pub side_to_move: u64,
}

impl ZobristKeys {
    /// The keys hold the draws of one generator in order: first the piece
    /// keys, color by color, piece by piece, square by square, then the four
    /// castling keys, the eight en passant keys and the side-to-move key.
    pub open spec fn drawn(&self) -> bool {
        &&& forall|c: int, p: int, s: int|
            0 <= c < 2 && 0 <= p < 6 && 0 <= s < 64 ==> #[trigger] self.pieces[c][p][s]
                == draw64(zobrist_seed(), (c * 384 + p * 64 + s) as nat)
        &&& forall|i: int| 0 <= i < 4 ==> #[trigger] self.castling[i] == draw64(zobrist_seed(), (768 + i) as nat)
        &&& forall|i: int| 0 <= i < 8 ==> #[trigger] self.en_passant[i] == draw64(zobrist_seed(), (772 + i) as nat)
        &&& self.side_to_move == draw64(zobrist_seed(), 780)
    }

    #[allow(clippy::new_without_default)]
    pub fn new() -> (r: Self)
        ensures
            r.drawn(),
    {
        let mut rng = Rng::new(0x3D1E32C2);
        let mut pieces = [[[0u64; 64]; 6]; 2];
        let mut c: usize = 0;
        while c < 2
            invariant
                c <= 2,
                rng.state == xorshift_n(zobrist_seed(), 4 * (c * 384) as nat),
                forall|cc: int, p: int, s: int|
                    0 <= cc < c && 0 <= p < 6 && 0 <= s < 64 ==> #[trigger] pieces[cc][p][s]
                        == draw64(zobrist_seed(), (cc * 384 + p * 64 + s) as nat),
            decreases 2 - c,
        {
            let mut p: usize = 0;
            while p < 6
                invariant
                    c < 2,
                    p <= 6,
                    rng.state == xorshift_n(zobrist_seed(), 4 * (c * 384 + p * 64) as nat),
                    forall|cc: int, pp: int, s: int|
                        0 <= cc < 2 && 0 <= pp < 6 && 0 <= s < 64 && (cc < c || (cc == c && pp < p)) ==> #[trigger] pieces[cc][pp][s]
                            == draw64(zobrist_seed(), (cc * 384 + pp * 64 + s) as nat),
                decreases 6 - p,
            {
                let mut row = pieces[c][p];
                let mut s: usize = 0;
                while s < 64
                    invariant
                        c < 2,
                        p < 6,
                        s <= 64,
                        rng.state == xorshift_n(zobrist_seed(), 4 * (c * 384 + p * 64 + s) as nat),
                        forall|t: int| 0 <= t < s ==> #[trigger] row[t]
                            == draw64(zobrist_seed(), (c * 384 + p * 64 + t) as nat),
                    decreases 64 - s,
                {
                    proof {
                        lemma_next_u64(zobrist_seed(), (c * 384 + p * 64 + s) as nat, rng.state);
                    }
                    row[s] = rng.next_u64();
                    s = s + 1;
                }
                let mut pc = pieces[c];
                pc[p] = row;
                pieces[c] = pc;
                p = p + 1;
            }
            c = c + 1;
        }
        let mut castling = [0u64; 4];
        let mut i: usize = 0;
        while i < 4
            invariant
                i <= 4,
                rng.state == xorshift_n(zobrist_seed(), 4 * (768 + i) as nat),
                forall|t: int| 0 <= t < i ==> #[trigger] castling[t] == draw64(zobrist_seed(), (768 + t) as nat),
            decreases 4 - i,
        {
            proof {
                lemma_next_u64(zobrist_seed(), (768 + i) as nat, rng.state);
            }
            castling[i] = rng.next_u64();
            i = i + 1;
        }
        let mut en_passant = [0u64; 8];
        let mut i: usize = 0;
        while i < 8
            invariant
                i <= 8,
                rng.state == xorshift_n(zobrist_seed(), 4 * (772 + i) as nat),
                forall|t: int| 0 <= t < i ==> #[trigger] en_passant[t] == draw64(zobrist_seed(), (772 + t) as nat),
            decreases 8 - i,
        {
            proof {
                lemma_next_u64(zobrist_seed(), (772 + i) as nat, rng.state);
            }
            en_passant[i] = rng.next_u64();
            i = i + 1;
        }
        proof {
            lemma_next_u64(zobrist_seed(), 780, rng.state);
        }
        let side_to_move = rng.next_u64();
        ZobristKeys { pieces, castling, en_passant, side_to_move }
    }
}

} // verus!

//! An opponent that plays a legal move drawn by a xorshift generator seeded
//! from the clock.
use vstd::prelude::*;
use core::time::Duration;
use std::time::{SystemTime, UNIX_EPOCH};
use crate::types::Move;
use crate::movegen::legal;
use crate::game::{GameState, no_legal_move};

verus! {

/// `std::time::SystemTime`: a wall-clock time, opaque here.
#[verifier::external_type_specification]
#[verifier::external_body]
pub struct ExSystemTime(SystemTime);

/// `SystemTime::now`: the wall-clock time. Nothing is promised of it.
#[verifier::external_body]
fn system_now() -> (r: SystemTime) {
    SystemTime::now()
}

/// `SystemTime::duration_since(UNIX_EPOCH)`: the time since 1970, or
/// `None` for a time before it. Nothing is promised of it.
#[verifier::external_body]
fn since_epoch(t: &SystemTime) -> (r: Option<Duration>) {
    t.duration_since(UNIX_EPOCH).ok()
}

/// `Duration::as_nanos`: the whole nanoseconds of a span. Nothing is
/// stated of it, spans being opaque here.
#[verifier::external_body]
fn as_nanos(d: &Duration) -> (r: u128) {
    d.as_nanos()
}

/// One step of the 64-bit xorshift generator (shifts 13, 7, 17).
pub open spec fn xorshift64(x: u64) -> u64 {
    let a = x ^ (x << 13u64);
    let b = a ^ (a >> 7u64);
    b ^ (b << 17u64)
}

/// The seed for a clock reading: the low 64 bits of the nanoseconds since
/// 1970, or 0xDEADBEEF where the clock stands before 1970 (`None`).
pub fn seed_from_nanos(nanos: Option<u128>) -> (r: u64)
    ensures
        r == (match nanos {
            Some(n) => n as u64,
            None => 0xDEADBEEFu64,
        }),
{
    match nanos {
        Some(n) => n as u64,
        None => 0xDEADBEEF,
    }
}

/// A bot that plays random legal moves.
pub struct Bot {
    pub seed: u64,
}

impl Bot {
    /// A bot seeded from the clock.
    #[allow(clippy::new_without_default)]
    pub fn new() -> (r: Self) {
        Self::with_depth(0)
    }

    /// A bot seeded from the clock (the depth is not used), by
    /// `seed_from_nanos` on the nanoseconds since 1970 that it reads.
    pub fn with_depth(_depth: u32) -> (r: Self) {
        let t = system_now();
        let nanos = match since_epoch(&t) {
            Some(d) => Some(as_nanos(&d)),
            None => None,
        };
        Bot { seed: seed_from_nanos(nanos) }
    }

    /// A bot seeded from the clock (the time is not used).
    pub fn with_time(_max_time: Duration) -> (r: Self) {
        Self::new()
    }

    /// Steps the generator and returns its new state.
    pub fn rand(&mut self) -> (r: u64)
        ensures
            r == xorshift64(old(self).seed),
            final(self).seed == r,
    {
        self.seed = self.seed ^ (self.seed << 13u64);
        self.seed = self.seed ^ (self.seed >> 7u64);
        self.seed = self.seed ^ (self.seed << 17u64);
        self.seed
    }

    /// A legal move, the one the generator's next value picks (modulo the
    /// number of legal moves, in the order they are generated), or `None`
    /// when there is none; the generator steps only when there is a move.
    pub fn best_move(&mut self, gs: &mut GameState) -> (r: Option<Move>)
        requires
            old(gs).position.valid(),
            old(gs).position.halfmove_clock < u32::MAX,
        ensures
            r is None <==> no_legal_move(old(gs).position),
            r matches Some(m) ==> legal(old(gs).position, m),
            r is Some ==> final(self).seed == xorshift64(old(self).seed),
            r is None ==> final(self).seed == old(self).seed,
            final(gs).position.view() == old(gs).position.view(),
            final(gs).position.side_to_move == old(gs).position.side_to_move,
            final(gs).position.castling_rights == old(gs).position.castling_rights,
            final(gs).position.en_passant == old(gs).position.en_passant,
            final(gs).position.halfmove_clock == old(gs).position.halfmove_clock,
            final(gs).history == old(gs).history,
            final(gs).repetition_table == old(gs).repetition_table,
            final(gs).result == old(gs).result,
    {
        let moves = gs.position.get_legal_moves();
        if moves.len() == 0 {
            proof {
                assert forall|m: Move| !#[trigger] legal(old(gs).position, m) by {
                    assert(!moves@.contains(m));
                }
            }
            return None;
        }
        proof {
            assert(moves@.contains(moves@[0]));
        }
        let r = self.rand();
        let idx = (r % (moves.len() as u64)) as usize;
        proof {
            assert(moves@.contains(moves@[idx as int]));
        }
        Some(moves[idx])
    }
}

} // verus!

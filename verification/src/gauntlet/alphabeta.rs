//! What the alpha-beta searchers promise: a fail-hard alpha-beta search
//! returns the minimax value when it lies inside the window, and otherwise
//! a bound on the side of the window the value lies on.
use vstd::prelude::*;

verus! {

/// `r` is what a fail-hard alpha-beta search with window (`alpha`,
/// `beta`) may return for a node of value `v`: `v` itself inside the
/// window; at most `alpha` when `v` is at most `alpha`; at least `beta`
/// when `v` is at least `beta`.
pub open spec fn window_ok(v: int, r: int, alpha: int, beta: int) -> bool {
    &&& (alpha < v < beta ==> r == v)
    &&& (v <= alpha ==> r <= alpha)
    &&& (v >= beta ==> r >= beta)
}

/// `v` held to the window [`alpha`, `beta`]: what a fail-hard search that
/// tries moves returns.
pub open spec fn clamped(v: int, alpha: int, beta: int) -> int {
    if v <= alpha {
        alpha
    } else if v >= beta {
        beta
    } else {
        v
    }
}

/// `r` lies between the lowest of `alpha`, `beta` and the mated score and
/// the highest of them and the mating score: where the scores of a search
/// in the window (`alpha`, `beta`) fall.
pub open spec fn score_between(r: int, alpha: int, beta: int) -> bool {
    let lo = if alpha < beta { alpha } else { beta };
    let hi = if alpha < beta { beta } else { alpha };
    &&& (if lo < -1_000_000 { lo } else { -1_000_000 }) <= r
    &&& r <= (if hi > 1_000_000 { hi } else { 1_000_000 })
}

} // verus!

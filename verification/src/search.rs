//! What the searches share: scores for mate and for a search cut off by
//! the clock, the clock itself, the transposition-table entry, and move
//! ordering by score.
use vstd::prelude::*;
use core::time::Duration;
use web_time::Instant;
use crate::types::{Move, move_eq};

verus! {

/// The score of being mated, from the mated side's view (negated).
pub const CHECKMATE_SCORE: i32 = 1_000_000;

/// What a search returns when its deadline passed.
pub const TIMEOUT: i32 = 0x7fff_ffff;

/// `web_time::Instant` (the standard `Instant` outside the web): a point
/// in time, opaque here.
#[verifier::external_type_specification]
#[verifier::external_body]
pub struct ExInstant(Instant);

/// `Instant::now`: the current time. Nothing is promised of it.
#[verifier::external_body]
pub(crate) fn now() -> (r: Instant) {
    Instant::now()
}

/// `Instant >= Instant`: whether `a` is not before `b`. It depends on the
/// two times only, which are opaque here, so nothing is stated of it.
#[verifier::external_body]
pub(crate) fn not_before(a: &Instant, b: &Instant) -> (r: bool) {
    *a >= *b
}

/// `Instant::checked_add`: `start` moved on by `d`, or `None` where that
/// time cannot be represented. Nothing is stated of the time itself.
#[verifier::external_body]
pub(crate) fn checked_later(start: &Instant, d: Duration) -> (r: Option<Instant>) {
    start.checked_add(d)
}

/// `Duration::from_millis`: a span of `ms` milliseconds, opaque here.
#[verifier::external_body]
pub(crate) fn millis(ms: u64) -> (r: Duration) {
    Duration::from_millis(ms)
}

/// Whether the deadline has come.
pub fn time_is_up(deadline: &Instant) -> (r: bool) {
    let t = now();
    not_before(&t, deadline)
}

/// The deadline `budget` from now (or now, should that time not be
/// representable).
pub fn deadline_in(budget: Duration) -> (r: Instant) {
    let start = now();
    match checked_later(&start, budget) {
        Some(d) => d,
        None => start,
    }
}

/// Whether the hash `h` stands in `reps` an even number of plies before
/// `ply` (at ply 0, 2, 4, ...).
pub open spec fn repeated(reps: Seq<u64>, ply: int, h: u64) -> bool {
    exists|k: int| 0 <= k < ply && k % 2 == 0 && #[trigger] reps[k] == h
}

/// The score of a repeated position whose side to move has the static
/// evaluation `eval`: -50 when ahead, 50 when behind, 0 when level.
pub open spec fn repetition_score(eval: int) -> int {
    if eval > 0 {
        -50
    } else if eval < 0 {
        50
    } else {
        0
    }
}

/// How a transposition-table score relates to the true score.
#[derive(Clone, Copy, PartialEq, Eq, Debug, Structural)]
pub enum TTFlag {
    Exact,
    LowerBound,
    UpperBound,
}

/// A transposition-table entry: the position's hash, the depth searched,
/// the score with its kind of bound, and the best move found.
#[derive(Clone, Copy, PartialEq, Eq, Debug, Structural)]
pub struct TTEntry {
    pub hash: u64,
    pub depth: u32,
    pub score: i32,
    pub flag: TTFlag,
    pub best_move: Option<Move>,
}

impl Default for TTEntry {
    /// An empty entry: hash 0, depth 0, score 0, exact, no move.
    fn default() -> (r: Self)
        ensures
            r == (TTEntry { hash: 0, depth: 0, score: 0, flag: TTFlag::Exact, best_move: None }),
    {
        TTEntry { hash: 0, depth: 0, score: 0, flag: TTFlag::Exact, best_move: None }
    }
}

/// A table of `size` empty entries.
pub fn empty_table(size: usize) -> (t: Vec<TTEntry>)
    ensures
        t@.len() == size,
        forall|i: int| 0 <= i < size ==> #[trigger] t@[i] == (TTEntry {
            hash: 0,
            depth: 0,
            score: 0,
            flag: TTFlag::Exact,
            best_move: None,
        }),
{
    let mut t: Vec<TTEntry> = Vec::new();
    let mut i: usize = 0;
    while i < size
        invariant
            i <= size,
            t@.len() == i,
            forall|j: int| 0 <= j < i ==> #[trigger] t@[j] == (TTEntry {
                hash: 0,
                depth: 0,
                score: 0,
                flag: TTFlag::Exact,
                best_move: None,
            }),
        decreases size - i,
    {
        t.push(TTEntry::default());
        i = i + 1;
    }
    t
}

/// The bound within which scores stay (far beyond any mate score): stored
/// scores are kept within it.
pub const SCORE_BOUND: i32 = 0x2000_0000;

/// The widest search window taken at the root: a few hundred short of the
/// `i32` range, so that the windows of the plies below, which widen by at
/// most one a ply, and their negations stay within it.
pub const WINDOW_BOUND: i32 = 2_147_483_000;

/// A score kept within the bound.
pub open spec fn clamp_score(x: i32) -> i32 {
    if x > SCORE_BOUND {
        SCORE_BOUND
    } else if x < -SCORE_BOUND {
        (-SCORE_BOUND) as i32
    } else {
        x
    }
}

/// A score kept within the bound for storing.
pub fn bounded(x: i32) -> (r: i32)
    ensures
        r == clamp_score(x),
        -SCORE_BOUND <= r <= SCORE_BOUND,
        -SCORE_BOUND <= x <= SCORE_BOUND ==> r == x,
{
    if x > SCORE_BOUND {
        SCORE_BOUND
    } else if x < -SCORE_BOUND {
        -SCORE_BOUND
    } else {
        x
    }
}

/// A history counter raised by `bonus`, stopping at the largest `i32`.
pub open spec fn raised(h: i32, bonus: int) -> i32 {
    if h + bonus > i32::MAX {
        i32::MAX
    } else {
        (h + bonus) as i32
    }
}

/// The killer slots of a ply after `mv` caused a cutoff there: `mv` first,
/// then the old first killer (the slots stay as they were when `mv` was
/// already first).
pub open spec fn killers_after(k: [Option<Move>; 2], mv: Move) -> (Option<Move>, Option<Move>) {
    if k[0] == Some(mv) {
        (k[0], k[1])
    } else {
        (Some(mv), k[0])
    }
}

/// The number of transposition-table entries.
pub const TT_SIZE: usize = 1048576;

/// The index of a hash in the table: its low 20 bits.
pub fn tt_index(hash: u64) -> (r: usize)
    ensures
        r < TT_SIZE,
        r == hash % 0x100000,
{
    let low = hash & 0xFFFFF;
    assert(low < 0x100000 && low == hash % 0x100000) by (bit_vector)
        requires
            low == hash & 0xFFFFF,
    ;
    low as usize
}

/// `s` lists the same moves as `t`, as often.
pub open spec fn same_moves(s: Seq<Move>, t: Seq<Move>) -> bool {
    s.to_multiset() == t.to_multiset()
}

/// The moves paired with their keys, index by index.
pub open spec fn keyed(moves: Seq<Move>, keys: Seq<i32>) -> Seq<(Move, i32)> {
    Seq::new(moves.len(), |i: int| (moves[i], keys[i]))
}

/// `moves` in order of descending `keys`, each move carrying its key along.
pub fn sort_by_keys(moves: &mut Vec<Move>, keys: &mut Vec<i32>)
    requires
        old(moves)@.len() == old(keys)@.len(),
    ensures
        final(moves)@.len() == old(moves)@.len(),
        final(keys)@.len() == old(keys)@.len(),
        same_moves(final(moves)@, old(moves)@),
        keyed(final(moves)@, final(keys)@).to_multiset() == keyed(old(moves)@, old(keys)@).to_multiset(),
        forall|i: int, j: int| 0 <= i < j < final(keys)@.len() ==> final(keys)@[i] >= final(keys)@[j],
{
    broadcast use vstd::seq_lib::group_to_multiset_ensures;
    let n = moves.len();
    let mut i: usize = 1;
    while i < n
        invariant
            n == moves@.len(),
            n == keys@.len(),
            1 <= i || n == 0,
            i <= n || n == 0,
            same_moves(moves@, old(moves)@),
            keyed(moves@, keys@).to_multiset() == keyed(old(moves)@, old(keys)@).to_multiset(),
            forall|a: int, b: int| 0 <= a < b < i && b < n ==> keys@[a] >= keys@[b],
        decreases n - i,
    {
        let mut j: usize = i;
        while j > 0 && keys[j - 1] < keys[j]
            invariant
                n == moves@.len(),
                n == keys@.len(),
                j <= i < n,
                same_moves(moves@, old(moves)@),
                keyed(moves@, keys@).to_multiset() == keyed(old(moves)@, old(keys)@).to_multiset(),
                forall|a: int, b: int| 0 <= a < b < j ==> keys@[a] >= keys@[b],
                forall|a: int, b: int| j < a < b <= i ==> keys@[a] >= keys@[b],
                forall|a: int, b: int| 0 <= a < j && j < b <= i ==> keys@[a] >= keys@[b],
                forall|b: int| j < b <= i ==> keys@[j as int] > keys@[b],
            decreases j,
        {
            let ghost before = moves@;
            let ghost pairs = keyed(moves@, keys@);
            let km = keys[j - 1];
            let kj = keys[j];
            keys.set(j - 1, kj);
            keys.set(j, km);
            let mm = moves[j - 1];
            let mj = moves[j];
            moves.set(j - 1, mj);
            moves.set(j, mm);
            proof {
                assert(moves@ =~= before.update(j - 1, mj).update(j as int, mm));
                lemma_swap_same(before, j as int - 1, j as int);
                assert(keyed(moves@, keys@) =~= pairs.update(j - 1, pairs[j as int]).update(j as int, pairs[j - 1]));
                lemma_swap_multiset(pairs, j as int - 1, j as int);
            }
            j = j - 1;
        }
        i = i + 1;
    }
}

/// Swapping two entries keeps the multiset of entries.
pub proof fn lemma_swap_multiset<A>(s: Seq<A>, a: int, b: int)
    requires
        0 <= a < s.len(),
        0 <= b < s.len(),
    ensures
        s.update(a, s[b]).update(b, s[a]).to_multiset() == s.to_multiset(),
{
    broadcast use vstd::seq_lib::group_to_multiset_ensures, vstd::multiset::group_multiset_axioms;
    let x = s[a];
    let y = s[b];
    let t = s.update(a, y);
    if a == b {
        assert(t.update(b, x) =~= s);
    } else {
        assert(t[b] == y);
        assert(t.to_multiset() == s.to_multiset().insert(y).remove(x));
        assert(t.update(b, x).to_multiset() == t.to_multiset().insert(x).remove(y));
        assert(s.to_multiset().insert(y).remove(x).insert(x).remove(y) =~= s.to_multiset());
    }
}

/// Swapping two entries keeps the moves listed.
pub proof fn lemma_swap_same(s: Seq<Move>, a: int, b: int)
    requires
        0 <= a < s.len(),
        0 <= b < s.len(),
    ensures
        same_moves(s.update(a, s[b]).update(b, s[a]), s),
{
    lemma_swap_multiset(s, a, b);
}

/// Where each key was the score `f` of its move, it still is after the
/// pairs are reordered.
pub proof fn lemma_keys_follow(m0: Seq<Move>, k0: Seq<i32>, m1: Seq<Move>, k1: Seq<i32>, f: spec_fn(Move) -> int)
    requires
        m0.len() == k0.len(),
        m1.len() == k1.len(),
        keyed(m1, k1).to_multiset() == keyed(m0, k0).to_multiset(),
        forall|i: int| 0 <= i < m0.len() ==> k0[i] == f(#[trigger] m0[i]),
    ensures
        forall|i: int| 0 <= i < m1.len() ==> k1[i] == f(#[trigger] m1[i]),
{
    broadcast use vstd::seq_lib::group_to_multiset_ensures;
    assert forall|i: int| 0 <= i < m1.len() implies k1[i] == f(#[trigger] m1[i]) by {
        let p1 = keyed(m1, k1);
        let p0 = keyed(m0, k0);
        assert(p1[i] == (m1[i], k1[i]));
        assert(p1.contains(p1[i]));
        assert(p1.to_multiset().count(p1[i]) > 0);
        assert(p0.contains(p1[i]));
        let j = choose|j: int| 0 <= j < p0.len() && p0[j] == p1[i];
        assert(p0[j] == (m0[j], k0[j]));
    }
}

/// The first index at which `moves` lists `mv`.
pub fn index_of(moves: &Vec<Move>, mv: &Move) -> (r: Option<usize>)
    ensures
        match r {
            Some(i) => i < moves@.len() && moves@[i as int] == *mv && forall|j: int| 0 <= j < i ==> moves@[j] != *mv,
            None => !moves@.contains(*mv),
        },
{
    let mut i: usize = 0;
    while i < moves.len()
        invariant
            i <= moves.len(),
            forall|j: int| 0 <= j < i ==> moves@[j] != *mv,
        decreases moves.len() - i,
    {
        if move_eq(&moves[i], mv) {
            return Some(i);
        }
        i = i + 1;
    }
    None
}

/// Swaps the entries at `a` and `b`.
pub fn swap_moves(moves: &mut Vec<Move>, a: usize, b: usize)
    requires
        a < old(moves)@.len(),
        b < old(moves)@.len(),
    ensures
        final(moves)@ == old(moves)@.update(a as int, old(moves)@[b as int]).update(b as int, old(moves)@[a as int]),
        same_moves(final(moves)@, old(moves)@),
{
    let ma = moves[a];
    let mb = moves[b];
    moves.set(a, mb);
    moves.set(b, ma);
    proof {
        lemma_swap_same(old(moves)@, a as int, b as int);
    }
}

/// Lists of the same moves contain the same moves, and a reordering of a
/// list without repeats has none.
pub proof fn lemma_same_moves(s: Seq<Move>, t: Seq<Move>)
    requires
        same_moves(s, t),
    ensures
        forall|m: Move| #[trigger] s.contains(m) <==> t.contains(m),
        t.no_duplicates() ==> s.no_duplicates(),
{
    broadcast use vstd::seq_lib::group_to_multiset_ensures, vstd::multiset::group_multiset_axioms;
    assert forall|m: Move| #[trigger] s.contains(m) <==> t.contains(m) by {
        assert(s.contains(m) <==> s.to_multiset().count(m) > 0);
        assert(t.contains(m) <==> t.to_multiset().count(m) > 0);
    }
    if t.no_duplicates() {
        t.lemma_multiset_has_no_duplicates();
        s.lemma_multiset_has_no_duplicates_conv();
    }
}

} // verus!

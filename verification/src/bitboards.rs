//! The board: one bitboard per color and piece, their unions, and a mailbox
//! that says for each square which piece stands there.
use vstd::prelude::*;
use crate::bits::{bit, sq_mask, group_bit_lemmas, lemma_ext, lemma_lowest_bit, lowest_square};

verus! {

broadcast use group_bit_lemmas;

/// What stands on a square: `(color index, piece index)`, or nothing.
pub type Cell = Option<(u8, u8)>;

/// The mathematical content of a [`Bitboards`]: `pieces[c * 6 + p]` is the
/// board of pieces `p` of color `c`.
pub struct BoardView {
    pub pieces: Seq<u64>,
    pub color: Seq<u64>,
    pub all: u64,
    pub mailbox: Seq<Cell>,
}

pub open spec fn cell_ok(m: Cell) -> bool {
    match m {
        Some((c, p)) => c < 2 && p < 6,
        None => true,
    }
}

/// Index of the board of piece `p` of color `c`.
pub open spec fn pidx(c: int, p: int) -> int {
    c * 6 + p
}

impl BoardView {
    /// Every board agrees with the mailbox: square `s` is set in the board
    /// of `(c, p)` exactly when the mailbox holds `(c, p)` there, in the
    /// board of color `c` exactly when a piece of color `c` stands there, and
    /// in `all` exactly when some piece stands there.
    pub open spec fn wf(self) -> bool {
        &&& self.pieces.len() == 12
        &&& self.color.len() == 2
        &&& self.mailbox.len() == 64
        &&& forall|s: int| 0 <= s < 64 ==> cell_ok(#[trigger] self.mailbox[s])
        &&& forall|i: int, s: int|
            0 <= i < 12 && 0 <= s < 64 ==> (#[trigger] bit(self.pieces[i], s) <==> self.mailbox[s]
                == Some(((i / 6) as u8, (i % 6) as u8)))
        &&& forall|c: int, s: int|
            0 <= c < 2 && 0 <= s < 64 ==> (#[trigger] bit(self.color[c], s) <==> (
            self.mailbox[s] is Some && self.mailbox[s].unwrap().0 == c))
        &&& forall|s: int| 0 <= s < 64 ==> (#[trigger] bit(self.all, s) <==> self.mailbox[s] is Some)
    }

    /// The view after piece `p` of color `c` is put on square `s`.
    pub open spec fn set(self, c: int, p: int, s: int) -> BoardView {
        let m = sq_mask(s);
        BoardView {
            pieces: self.pieces.update(pidx(c, p), self.pieces[pidx(c, p)] | m),
            color: self.color.update(c, self.color[c] | m),
            all: self.all | m,
            mailbox: self.mailbox.update(s, Some((c as u8, p as u8))),
        }
    }

    /// The view after piece `p` of color `c` is taken off square `s`.
    pub open spec fn clear(self, c: int, p: int, s: int) -> BoardView {
        let m = sq_mask(s);
        BoardView {
            pieces: self.pieces.update(pidx(c, p), self.pieces[pidx(c, p)] & !m),
            color: self.color.update(c, self.color[c] & !m),
            all: self.all & !m,
            mailbox: self.mailbox.update(s, None),
        }
    }
}

/// Putting a piece on an empty square keeps the boards in agreement.
pub proof fn lemma_set_wf(v: BoardView, c: int, p: int, s: int)
    requires
        v.wf(),
        0 <= c < 2,
        0 <= p < 6,
        0 <= s < 64,
        v.mailbox[s] is None,
    ensures
        v.set(c, p, s).wf(),
{
    let w = v.set(c, p, s);
    assert forall|i: int, t: int| 0 <= i < 12 && 0 <= t < 64 implies (#[trigger] bit(
        w.pieces[i],
        t,
    ) <==> w.mailbox[t] == Some(((i / 6) as u8, (i % 6) as u8))) by {
        if i == pidx(c, p) {
            assert(bit(v.pieces[i], t) <==> v.mailbox[t] == Some(((i / 6) as u8, (i % 6) as u8)));
        } else {
            assert(bit(v.pieces[i], t) <==> v.mailbox[t] == Some(((i / 6) as u8, (i % 6) as u8)));
        }
    }
    assert forall|cc: int, t: int| 0 <= cc < 2 && 0 <= t < 64 implies (#[trigger] bit(
        w.color[cc],
        t,
    ) <==> (w.mailbox[t] is Some && w.mailbox[t].unwrap().0 == cc)) by {
        assert(bit(v.color[cc], t) <==> (v.mailbox[t] is Some && v.mailbox[t].unwrap().0 == cc));
    }
    assert forall|t: int| 0 <= t < 64 implies (#[trigger] bit(w.all, t) <==> w.mailbox[t] is Some) by {
        assert(bit(v.all, t) <==> v.mailbox[t] is Some);
    }
}

/// Taking off the piece that stands on a square keeps the boards in agreement.
pub proof fn lemma_clear_wf(v: BoardView, c: int, p: int, s: int)
    requires
        v.wf(),
        0 <= c < 2,
        0 <= p < 6,
        0 <= s < 64,
        v.mailbox[s] == Some((c as u8, p as u8)),
    ensures
        v.clear(c, p, s).wf(),
{
    let w = v.clear(c, p, s);
    assert forall|i: int, t: int| 0 <= i < 12 && 0 <= t < 64 implies (#[trigger] bit(
        w.pieces[i],
        t,
    ) <==> w.mailbox[t] == Some(((i / 6) as u8, (i % 6) as u8))) by {
        assert(bit(v.pieces[i], t) <==> v.mailbox[t] == Some(((i / 6) as u8, (i % 6) as u8)));
        assert(bit(v.pieces[i], s) <==> v.mailbox[s] == Some(((i / 6) as u8, (i % 6) as u8)));
        if i == pidx(c, p) {
            assert(bit(sq_mask(s), t) <==> t == s);
        }
    }
    assert forall|cc: int, t: int| 0 <= cc < 2 && 0 <= t < 64 implies (#[trigger] bit(
        w.color[cc],
        t,
    ) <==> (w.mailbox[t] is Some && w.mailbox[t].unwrap().0 == cc)) by {
        assert(bit(v.color[cc], t) <==> (v.mailbox[t] is Some && v.mailbox[t].unwrap().0 == cc));
    }
    assert forall|t: int| 0 <= t < 64 implies (#[trigger] bit(w.all, t) <==> w.mailbox[t] is Some) by {
        assert(bit(v.all, t) <==> v.mailbox[t] is Some);
    }
}

/// Boards in agreement with the same mailbox are the same boards.
pub proof fn lemma_wf_determined(v: BoardView, w: BoardView)
    requires
        v.wf(),
        w.wf(),
        v.mailbox =~= w.mailbox,
    ensures
        v == w,
{
    assert forall|i: int| 0 <= i < 12 implies v.pieces[i] == w.pieces[i] by {
        assert forall|t: int| 0 <= t < 64 implies (#[trigger] bit(v.pieces[i], t) <==> bit(
            w.pieces[i],
            t,
        )) by {
            assert(bit(v.pieces[i], t) <==> v.mailbox[t] == Some(((i / 6) as u8, (i % 6) as u8)));
            assert(bit(w.pieces[i], t) <==> w.mailbox[t] == Some(((i / 6) as u8, (i % 6) as u8)));
        }
        lemma_ext(v.pieces[i], w.pieces[i]);
    }
    assert forall|c: int| 0 <= c < 2 implies v.color[c] == w.color[c] by {
        assert forall|t: int| 0 <= t < 64 implies (#[trigger] bit(v.color[c], t) <==> bit(
            w.color[c],
            t,
        )) by {
            assert(bit(v.color[c], t) <==> (v.mailbox[t] is Some && v.mailbox[t].unwrap().0 == c));
            assert(bit(w.color[c], t) <==> (w.mailbox[t] is Some && w.mailbox[t].unwrap().0 == c));
        }
        lemma_ext(v.color[c], w.color[c]);
    }
    assert forall|t: int| 0 <= t < 64 implies (#[trigger] bit(v.all, t) <==> bit(w.all, t)) by {
        assert(bit(v.all, t) <==> v.mailbox[t] is Some);
        assert(bit(w.all, t) <==> w.mailbox[t] is Some);
    }
    lemma_ext(v.all, w.all);
    assert(v.pieces =~= w.pieces);
    assert(v.color =~= w.color);
}

/// The owner of square `s` among the first `n` boards of `pieces`: the
/// last of them that has `s` set.
pub open spec fn last_owner(pieces: Seq<u64>, s: int, n: int) -> Cell
    decreases n,
{
    if n <= 0 {
        None
    } else if bit(pieces[n - 1], s) {
        Some((((n - 1) / 6) as u8, ((n - 1) % 6) as u8))
    } else {
        last_owner(pieces, s, n - 1)
    }
}

/// No square is set in two of the twelve piece boards.
pub open spec fn disjoint(pieces: Seq<u64>) -> bool {
    forall|i: int, j: int, s: int|
        0 <= i < 12 && 0 <= j < 12 && i != j && #[trigger] bit(pieces[i], s) ==> !#[trigger] bit(
            pieces[j],
            s,
        )
}

pub open spec fn or6(b: Seq<u64>, c: int) -> u64 {
    b[c * 6] | b[c * 6 + 1] | b[c * 6 + 2] | b[c * 6 + 3] | b[c * 6 + 4] | b[c * 6 + 5]
}

proof fn lemma_last_owner(pieces: Seq<u64>, s: int, n: int)
    requires
        0 <= n <= 12,
        disjoint(pieces),
        pieces.len() == 12,
    ensures
        forall|i: int|
            0 <= i < n ==> (#[trigger] bit(pieces[i], s) <==> last_owner(pieces, s, n) == Some(
                ((i / 6) as u8, (i % 6) as u8),
            )),
        last_owner(pieces, s, n) is Some ==> exists|i: int| 0 <= i < n && #[trigger] bit(pieces[i], s),
        cell_ok(last_owner(pieces, s, n)),
    decreases n,
{
    if n > 0 {
        lemma_last_owner(pieces, s, n - 1);
        if bit(pieces[n - 1], s) {
            assert forall|i: int| 0 <= i < n - 1 implies !#[trigger] bit(pieces[i], s) by {
            }
        }
    }
}

/// Boards recomputed from disjoint piece boards agree with each other.
pub proof fn lemma_recomputed_wf(v: BoardView)
    requires
        v.pieces.len() == 12,
        v.color.len() == 2,
        v.mailbox.len() == 64,
        disjoint(v.pieces),
        v.color[0] == or6(v.pieces, 0),
        v.color[1] == or6(v.pieces, 1),
        v.all == v.color[0] | v.color[1],
        forall|s: int| 0 <= s < 64 ==> #[trigger] v.mailbox[s] == last_owner(v.pieces, s, 12),
    ensures
        v.wf(),
{
    assert forall|s: int| 0 <= s < 64 implies cell_ok(#[trigger] v.mailbox[s]) by {
        lemma_last_owner(v.pieces, s, 12);
    }
    assert forall|i: int, s: int| 0 <= i < 12 && 0 <= s < 64 implies (#[trigger] bit(
        v.pieces[i],
        s,
    ) <==> v.mailbox[s] == Some(((i / 6) as u8, (i % 6) as u8))) by {
        lemma_last_owner(v.pieces, s, 12);
    }
    assert forall|c: int, s: int| 0 <= c < 2 && 0 <= s < 64 implies (#[trigger] bit(
        v.color[c],
        s,
    ) <==> (v.mailbox[s] is Some && v.mailbox[s].unwrap().0 == c)) by {
        lemma_last_owner(v.pieces, s, 12);
        if v.mailbox[s] is Some {
            let i = choose|i: int| 0 <= i < 12 && #[trigger] bit(v.pieces[i], s);
            assert(v.mailbox[s] == Some(((i / 6) as u8, (i % 6) as u8)));
        }
        assert(bit(v.pieces[c * 6], s) <==> v.mailbox[s] == Some((c as u8, 0u8)));
        assert(bit(v.pieces[c * 6 + 1], s) <==> v.mailbox[s] == Some((c as u8, 1u8)));
        assert(bit(v.pieces[c * 6 + 2], s) <==> v.mailbox[s] == Some((c as u8, 2u8)));
        assert(bit(v.pieces[c * 6 + 3], s) <==> v.mailbox[s] == Some((c as u8, 3u8)));
        assert(bit(v.pieces[c * 6 + 4], s) <==> v.mailbox[s] == Some((c as u8, 4u8)));
        assert(bit(v.pieces[c * 6 + 5], s) <==> v.mailbox[s] == Some((c as u8, 5u8)));
    }
    assert forall|s: int| 0 <= s < 64 implies (#[trigger] bit(v.all, s) <==> v.mailbox[s] is Some) by {
        assert(bit(v.color[0], s) <==> (v.mailbox[s] is Some && v.mailbox[s].unwrap().0 == 0));
        assert(bit(v.color[1], s) <==> (v.mailbox[s] is Some && v.mailbox[s].unwrap().0 == 1));
    }
}

/// The piece on file `f` of a back rank at the start: R N B Q K B N R.
pub open spec fn back_rank_piece(f: int) -> u8 {
    if f == 0 || f == 7 {
        3
    } else if f == 1 || f == 6 {
        1
    } else if f == 2 || f == 5 {
        2
    } else if f == 3 {
        4
    } else {
        5
    }
}

/// What stands on square `s` at the start of a game.
pub open spec fn start_cell(s: int) -> Cell {
    if s < 8 {
        Some((0u8, back_rank_piece(s % 8)))
    } else if s < 16 {
        Some((0u8, 0u8))
    } else if s < 48 {
        None
    } else if s < 56 {
        Some((1u8, 0u8))
    } else {
        Some((1u8, back_rank_piece(s % 8)))
    }
}

pub open spec fn start_mailbox() -> Seq<Cell> {
    Seq::new(64, |s: int| start_cell(s))
}

proof fn lemma_start_bits(s: u64)
    requires
        s < 64,
    ensures
        (0x000000000000FF00u64 >> s) & 1u64 == 1u64 <==> (8 <= s && s < 16),
        (0x0000000000000042u64 >> s) & 1u64 == 1u64 <==> (s == 1 || s == 6),
        (0x0000000000000024u64 >> s) & 1u64 == 1u64 <==> (s == 2 || s == 5),
        (0x0000000000000081u64 >> s) & 1u64 == 1u64 <==> (s == 0 || s == 7),
        (0x0000000000000008u64 >> s) & 1u64 == 1u64 <==> (s == 3),
        (0x0000000000000010u64 >> s) & 1u64 == 1u64 <==> (s == 4),
        (0x00FF000000000000u64 >> s) & 1u64 == 1u64 <==> (48 <= s && s < 56),
        (0x4200000000000000u64 >> s) & 1u64 == 1u64 <==> (s == 57 || s == 62),
        (0x2400000000000000u64 >> s) & 1u64 == 1u64 <==> (s == 58 || s == 61),
        (0x8100000000000000u64 >> s) & 1u64 == 1u64 <==> (s == 56 || s == 63),
        (0x0800000000000000u64 >> s) & 1u64 == 1u64 <==> (s == 59),
        (0x1000000000000000u64 >> s) & 1u64 == 1u64 <==> (s == 60),
{
    assert(s < 64 ==> ((0x000000000000FF00u64 >> s) & 1u64 == 1u64 <==> (8 <= s && s < 16))) by (bit_vector);
    assert(s < 64 ==> ((0x0000000000000042u64 >> s) & 1u64 == 1u64 <==> (s == 1 || s == 6))) by (bit_vector);
    assert(s < 64 ==> ((0x0000000000000024u64 >> s) & 1u64 == 1u64 <==> (s == 2 || s == 5))) by (bit_vector);
    assert(s < 64 ==> ((0x0000000000000081u64 >> s) & 1u64 == 1u64 <==> (s == 0 || s == 7))) by (bit_vector);
    assert(s < 64 ==> ((0x0000000000000008u64 >> s) & 1u64 == 1u64 <==> (s == 3))) by (bit_vector);
    assert(s < 64 ==> ((0x0000000000000010u64 >> s) & 1u64 == 1u64 <==> (s == 4))) by (bit_vector);
    assert(s < 64 ==> ((0x00FF000000000000u64 >> s) & 1u64 == 1u64 <==> (48 <= s && s < 56))) by (bit_vector);
    assert(s < 64 ==> ((0x4200000000000000u64 >> s) & 1u64 == 1u64 <==> (s == 57 || s == 62))) by (bit_vector);
    assert(s < 64 ==> ((0x2400000000000000u64 >> s) & 1u64 == 1u64 <==> (s == 58 || s == 61))) by (bit_vector);
    assert(s < 64 ==> ((0x8100000000000000u64 >> s) & 1u64 == 1u64 <==> (s == 56 || s == 63))) by (bit_vector);
    assert(s < 64 ==> ((0x0800000000000000u64 >> s) & 1u64 == 1u64 <==> (s == 59))) by (bit_vector);
    assert(s < 64 ==> ((0x1000000000000000u64 >> s) & 1u64 == 1u64 <==> (s == 60))) by (bit_vector);
}

proof fn lemma_start_disjoint(bb: Bitboards)
    requires
        bb.pieces[0][0] == 0x000000000000FF00u64,
        bb.pieces[0][1] == 0x0000000000000042u64,
        bb.pieces[0][2] == 0x0000000000000024u64,
        bb.pieces[0][3] == 0x0000000000000081u64,
        bb.pieces[0][4] == 0x0000000000000008u64,
        bb.pieces[0][5] == 0x0000000000000010u64,
        bb.pieces[1][0] == 0x00FF000000000000u64,
        bb.pieces[1][1] == 0x4200000000000000u64,
        bb.pieces[1][2] == 0x2400000000000000u64,
        bb.pieces[1][3] == 0x8100000000000000u64,
        bb.pieces[1][4] == 0x0800000000000000u64,
        bb.pieces[1][5] == 0x1000000000000000u64,
        forall|s: int| 0 <= s < 64 ==> #[trigger] bb.mailbox@[s] == last_owner(bb.view().pieces, s, 12),
        disjoint(bb.view().pieces) ==> bb.wf(),
    ensures
        bb.wf(),
        bb.mailbox@ == start_mailbox(),
{
    let v = bb.view().pieces;
    assert forall|i: int, s: int| 0 <= i < 12 && 0 <= s < 64 implies (#[trigger] bit(v[i], s) <==> start_cell(s) == Some(((i / 6) as u8, (i % 6) as u8))) by {
        lemma_start_bits(s as u64);
    }
    assert forall|i: int, j: int, s: int|
        0 <= i < 12 && 0 <= j < 12 && i != j && #[trigger] bit(v[i], s) implies !#[trigger] bit(v[j], s) by {
        lemma_start_bits(s as u64);
    }
    assert forall|s: int| 0 <= s < 64 implies #[trigger] bb.mailbox@[s] == start_cell(s) by {
        lemma_last_owner(v, s, 12);
        lemma_start_bits(s as u64);
        if start_cell(s) is Some {
            let (c, p) = start_cell(s).unwrap();
            assert(bit(v[c * 6 + p], s));
        } else {
            if bb.mailbox@[s] is Some {
                let i = choose|i: int| 0 <= i < 12 && #[trigger] bit(v[i], s);
                assert(false);
            }
        }
    }
    assert(bb.mailbox@ =~= start_mailbox());
}

#[derive(Clone, Copy)]
pub struct Bitboards {
    /// `pieces[color][piece]`
    pub pieces: [[u64; 6]; 2],
    pub color: [u64; 2],
    pub all: u64,
    pub mailbox: [Option<(u8, u8)>; 64],
}

/// The view's board of `(c, k)` is the array's.
pub broadcast proof fn lemma_view_index(bb: Bitboards, c: int, k: int)
    requires
        0 <= c < 2,
        0 <= k < 6,
    ensures
        #[trigger] bb.view().pieces[pidx(c, k)] == bb.pieces[c][k],
{
    assert(pidx(c, k) / 6 == c && pidx(c, k) % 6 == k) by (nonlinear_arith)
        requires
            0 <= c < 2,
            0 <= k < 6,
    ;
}

impl Bitboards {
    pub open spec fn view(&self) -> BoardView {
        BoardView {
            pieces: Seq::new(12, |i: int| self.pieces[i / 6][i % 6]),
            color: self.color@,
            all: self.all,
            mailbox: self.mailbox@,
        }
    }

    pub open spec fn wf(&self) -> bool {
        self.view().wf()
    }

    /// The cell of square `s`.
    pub open spec fn cell(&self, s: int) -> Cell {
        self.mailbox@[s]
    }

    /// The board of piece `p` of color `c`.
    pub open spec fn board_of(&self, c: int, p: int) -> u64 {
        self.pieces[c][p]
    }

    /// Recomputes the color boards, `all` and the mailbox from the piece
    /// boards. Where two piece boards share a square, the mailbox names the
    /// later of them (Black after White, King after Queen and so on).
    pub fn recompute(&mut self)
        ensures
            final(self).pieces == old(self).pieces,
            final(self).view().color[0] == or6(final(self).view().pieces, 0),
            final(self).view().color[1] == or6(final(self).view().pieces, 1),
            final(self).all == final(self).color[0] | final(self).color[1],
            forall|s: int| 0 <= s < 64 ==> #[trigger] final(self).mailbox@[s] == last_owner(
                final(self).view().pieces, s, 12),
            disjoint(final(self).view().pieces) ==> final(self).wf(),
    {
        let ghost pv = self.view().pieces;
        let w = self.pieces[0];
        let b = self.pieces[1];
        self.color[0] = w[0] | w[1] | w[2] | w[3] | w[4] | w[5];
        self.color[1] = b[0] | b[1] | b[2] | b[3] | b[4] | b[5];
        self.all = self.color[0] | self.color[1];
        self.mailbox = [None; 64];
        let mut c: usize = 0;
        while c < 2
            invariant
                c <= 2,
                self.view().pieces == pv,
                self.pieces == old(self).pieces,
                self.view().color[0] == or6(pv, 0),
                self.view().color[1] == or6(pv, 1),
                self.all == self.color[0] | self.color[1],
                forall|s: int| 0 <= s < 64 ==> #[trigger] self.mailbox@[s] == last_owner(pv, s, (c * 6) as int),
            decreases 2 - c,
        {
            let mut p: usize = 0;
            while p < 6
                invariant
                    c < 2,
                    p <= 6,
                    self.view().pieces == pv,
                    self.pieces == old(self).pieces,
                    self.view().color[0] == or6(pv, 0),
                    self.view().color[1] == or6(pv, 1),
                    self.all == self.color[0] | self.color[1],
                    forall|s: int| 0 <= s < 64 ==> #[trigger] self.mailbox@[s] == last_owner(pv, s, (c * 6 + p) as int),
                decreases 6 - p,
            {
                let ghost i = (c * 6 + p) as int;
                let ghost before = self.mailbox@;
                let mut bb = self.pieces[c][p];
                assert(pv[i] == bb);
                while bb != 0
                    invariant
                        c < 2,
                        p < 6,
                        i == c * 6 + p,
                        self.view().pieces == pv,
                        self.pieces == old(self).pieces,
                        self.view().color[0] == or6(pv, 0),
                        self.view().color[1] == or6(pv, 1),
                        self.all == self.color[0] | self.color[1],
                        forall|s: int| 0 <= s < 64 ==> #[trigger] self.mailbox@[s] == if bit(pv[i], s) && !bit(bb, s) {
                            Some((c as u8, p as u8))
                        } else {
                            last_owner(pv, s, i)
                        },
                        forall|s: int| #[trigger] bit(bb, s) ==> bit(pv[i], s),
                    decreases bb,
                {
                    let sq = lowest_square(bb);
                    proof {
                        lemma_lowest_bit(bb);
                    }
                    self.mailbox[sq as usize] = Some((c as u8, p as u8));
                    let ghost old_bb = bb;
                    bb = bb & (bb - 1);
                    assert(bb < old_bb) by (bit_vector)
                        requires bb == old_bb & ((old_bb - 1) as u64), old_bb != 0;
                }
                proof {
                    assert forall|s: int| 0 <= s < 64 implies #[trigger] self.mailbox@[s] == last_owner(pv, s, i + 1) by {
                        assert(!bit(0u64, s));
                    }
                }
                p = p + 1;
            }
            c = c + 1;
        }
        proof {
            if disjoint(self.view().pieces) {
                lemma_recomputed_wf(self.view());
            }
        }
    }

    /// The boards of the starting position.
    #[allow(clippy::new_without_default)]
    pub fn new() -> (r: Self)
        ensures
            r.wf(),
            r.mailbox@ == start_mailbox(),
    {
        let mut bb = Bitboards {
            pieces: [
                [
                    0x000000000000FF00,
                    0x0000000000000042,
                    0x0000000000000024,
                    0x0000000000000081,
                    0x0000000000000008,
                    0x0000000000000010,
                ],
                [
                    0x00FF000000000000,
                    0x4200000000000000,
                    0x2400000000000000,
                    0x8100000000000000,
                    0x0800000000000000,
                    0x1000000000000000,
                ],
            ],
            color: [0;2],
            all: 0,
            mailbox: [None; 64],
        };
        bb.recompute();
        proof {
            lemma_start_disjoint(bb);
        }
        bb
    }

    /// No piece on the board.
    pub fn empty() -> (r: Self)
        ensures
            r.wf(),
            forall|s: int| 0 <= s < 64 ==> r.mailbox@[s] is None,
            forall|c: int, p: int| 0 <= c < 2 && 0 <= p < 6 ==> r.pieces[c][p] == 0,
    {
        let r = Bitboards { pieces: [[0u64; 6]; 2], color: [0;2], all: 0, mailbox: [None; 64] };
        proof {
            assert forall|i: int, s: int| 0 <= i < 12 && 0 <= s < 64 implies (#[trigger] bit(
                r.view().pieces[i],
                s,
            ) <==> r.view().mailbox[s] == Some(((i / 6) as u8, (i % 6) as u8))) by {
                assert(r.pieces[i / 6][i % 6] == 0);
            }
        }
        r
    }

    /// Puts piece `piece` of color `color` on square `sq`.
    #[inline(always)]
    pub fn set_piece(&mut self, color: usize, piece: usize, sq: u8)
        requires
            color < 2,
            piece < 6,
            sq < 64,
        ensures
            final(self).view() == old(self).view().set(color as int, piece as int, sq as int),
    {
        let mask = 1u64 << sq;
        let mut row = self.pieces[color];
        row[piece] = row[piece] | mask;
        self.pieces[color] = row;
        self.color[color] = self.color[color] | mask;
        self.all = self.all | mask;
        self.mailbox[sq as usize] = Some((color as u8, piece as u8));
        proof {
            let v = old(self).view().set(color as int, piece as int, sq as int);
            assert(self.view().pieces =~= v.pieces);
            assert(self.view().color =~= v.color);
            assert(self.view().mailbox =~= v.mailbox);
        }
    }

    /// Takes piece `piece` of color `color` off square `sq`.
    #[inline(always)]
    pub fn clear_piece(&mut self, color: usize, piece: usize, sq: u8)
        requires
            color < 2,
            piece < 6,
            sq < 64,
        ensures
            final(self).view() == old(self).view().clear(color as int, piece as int, sq as int),
    {
        let mask = 1u64 << sq;
        let mut row = self.pieces[color];
        row[piece] = row[piece] & !mask;
        self.pieces[color] = row;
        self.color[color] = self.color[color] & !mask;
        self.all = self.all & !mask;
        self.mailbox[sq as usize] = None;
        proof {
            let v = old(self).view().clear(color as int, piece as int, sq as int);
            assert(self.view().pieces =~= v.pieces);
            assert(self.view().color =~= v.color);
            assert(self.view().mailbox =~= v.mailbox);
        }
    }
}

} // verus!

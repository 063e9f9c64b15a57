//! Deciding, before handing text or a position to the engine, whether it can
//! take it: whether a FEN string reads, and whether a position is one that
//! can arise in a game.
use vstd::prelude::*;
use crate::bits::{bit, is_set, lemma_zero_iff_empty};
use crate::bitboards::{Bitboards, BoardView, cell_ok, pidx, lemma_view_index};
use crate::types::Color;
use crate::position::{Position, piece_at, ep_victim};
use crate::movegen::{sound, one_king, king_on, ep_ok, castle_ok};
use crate::fen::{
    fen_ok, fen_piece, placement_ok, places, castling_ok, ep_field_ok, is_startpos, read_placement,
};
use crate::text::{chars_of, split_fields, fields, digit_value};

verus! {

/// Whether `ch` is a piece letter.
fn is_piece_char(ch: char) -> (r: bool)
    ensures
        r == (fen_piece(ch) is Some),
{
    ch == 'P' || ch == 'N' || ch == 'B' || ch == 'R' || ch == 'Q' || ch == 'K' || ch == 'p' || ch == 'n' || ch
        == 'b' || ch == 'r' || ch == 'q' || ch == 'k'
}

/// Whether the placement field `s` can be read.
fn placement_valid(s: &Vec<char>) -> (r: bool)
    ensures
        r == placement_ok(s@, 0, 0, 0),
{
    let mut row: usize = 0;
    let mut file: usize = 0;
    let ghost mut row_s: int = 0;
    let ghost mut file_s: int = 0;
    let mut i: usize = 0;
    while i < s.len()
        invariant
            i <= s.len(),
            placement_ok(s@, 0, 0, 0) == placement_ok(s@, i as int, row_s, file_s),
            row_s >= 0,
            file_s >= 0,
            row == row_s || (row >= 8 && row_s >= 8),
            row <= 8,
            file == file_s || (file >= 64 && file_s >= 64),
            file <= 72,
        decreases s.len() - i,
    {
        let ch = s[i];
        if ch == '/' {
            if row < 8 {
                row = row + 1;
            }
            file = 0;
            proof {
                row_s = row_s + 1;
                file_s = 0;
            }
        } else if '0' <= ch && ch <= '9' {
            let d = (ch as u32 - '0' as u32) as usize;
            if file < 64 {
                file = file + d;
            }
            proof {
                file_s = file_s + digit_value(ch);
            }
        } else {
            if !is_piece_char(ch) || row > 7 || (7 - row) * 8 + file >= 64 {
                return false;
            }
            file = file + 1;
            proof {
                file_s = file_s + 1;
            }
        }
        i = i + 1;
    }
    true
}

/// Whether the castling field holds only K, Q, k, q and `-`.
fn castling_valid(t: &Vec<char>) -> (r: bool)
    ensures
        r == castling_ok(t@),
{
    let mut i: usize = 0;
    while i < t.len()
        invariant
            i <= t.len(),
            forall|j: int|
                0 <= j < i ==> (#[trigger] t@[j] == 'K' || t@[j] == 'Q' || t@[j] == 'k' || t@[j] == 'q' || t@[j]
                    == '-'),
        decreases t.len() - i,
    {
        let c = t[i];
        if !(c == 'K' || c == 'Q' || c == 'k' || c == 'q' || c == '-') {
            return false;
        }
        i = i + 1;
    }
    true
}

/// Whether the en passant field reads.
fn ep_field_valid(t: &Vec<char>) -> (r: bool)
    ensures
        r == ep_field_ok(t@),
{
    if t.len() == 1 && t[0] == '-' {
        proof {
            assert(t@ =~= seq!['-']);
        }
        return true;
    }
    proof {
        if t@ == seq!['-'] {
            assert(t@.len() == 1 && t@[0] == '-');
        }
    }
    if t.len() < 2 {
        return false;
    }
    let a = t[0] as u32;
    let b = t[1] as u32;
    97 <= a && a < 128 && 49 <= b && b < 128 && (b - 49) * 8 + (a - 97) <= 255
}

/// Whether `Position::from_fen` (and `GameState::from_fen`) can read `fen`:
/// `startpos`, or six fields with a readable placement holding both kings,
/// `w` or `b`, castling letters, and an en passant field.
pub fn fen_valid(fen: &str) -> (r: bool)
    ensures
        r == fen_ok(fen@),
{
    let f = chars_of(fen);
    if is_startpos(&f) {
        return true;
    }
    let parts = split_fields(&f);
    if parts.len() < 6 {
        return false;
    }
    proof {
        assert(parts@[0]@ == fields(fen@)[0]);
        assert(parts@[1]@ == fields(fen@)[1]);
        assert(parts@[2]@ == fields(fen@)[2]);
        assert(parts@[3]@ == fields(fen@)[3]);
    }
    if !placement_valid(&parts[0]) {
        return false;
    }
    let bb = read_placement(&parts[0]);
    let white_kings = bb.pieces[0][5];
    let black_kings = bb.pieces[1][5];
    proof {
        let s = parts@[0]@;
        lemma_view_index(bb, 0, 5);
        lemma_view_index(bb, 1, 5);
        lemma_zero_iff_empty(white_kings);
        lemma_zero_iff_empty(black_kings);
        assert((exists|sq: int| 0 <= sq < 64 && #[trigger] places(s, 0, 0, 0, sq, 0, 5)) <==> white_kings != 0) by {
            if white_kings != 0 {
                let t = choose|t: int| 0 <= t < 64 && #[trigger] bit(white_kings, t);
                assert(bit(bb.view().pieces[pidx(0, 5)], t));
                assert(places(s, 0, 0, 0, t, 0, 5));
            }
            if exists|sq: int| 0 <= sq < 64 && #[trigger] places(s, 0, 0, 0, sq, 0, 5) {
                let t = choose|sq: int| 0 <= sq < 64 && #[trigger] places(s, 0, 0, 0, sq, 0, 5);
                assert(bit(bb.view().pieces[pidx(0, 5)], t));
            }
        }
        assert((exists|sq: int| 0 <= sq < 64 && #[trigger] places(s, 0, 0, 0, sq, 1, 5)) <==> black_kings != 0) by {
            if black_kings != 0 {
                let t = choose|t: int| 0 <= t < 64 && #[trigger] bit(black_kings, t);
                assert(bit(bb.view().pieces[pidx(1, 5)], t));
                assert(places(s, 0, 0, 0, t, 1, 5));
            }
            if exists|sq: int| 0 <= sq < 64 && #[trigger] places(s, 0, 0, 0, sq, 1, 5) {
                let t = choose|sq: int| 0 <= sq < 64 && #[trigger] places(s, 0, 0, 0, sq, 1, 5);
                assert(bit(bb.view().pieces[pidx(1, 5)], t));
            }
        }
    }
    if white_kings == 0 || black_kings == 0 {
        return false;
    }
    let side_ok = parts[1].len() == 1 && (parts[1][0] == 'w' || parts[1][0] == 'b');
    proof {
        let t = parts@[1]@;
        if side_ok {
            if t[0] == 'w' {
                assert(t =~= seq!['w']);
            } else {
                assert(t =~= seq!['b']);
            }
        }
        if t == seq!['w'] || t == seq!['b'] {
            assert(t.len() == 1);
        }
    }
    if !side_ok {
        return false;
    }
    castling_valid(&parts[2]) && ep_field_valid(&parts[3])
}

/// The boards agree on square `s`: its cell names a color and a kind, each
/// piece board has the square exactly when the cell names that piece, each
/// color board exactly when the cell names that color, and the occupancy
/// exactly when the cell is occupied.
pub open spec fn square_agrees(v: BoardView, s: int) -> bool {
    &&& cell_ok(v.mailbox[s])
    &&& forall|i: int|
        0 <= i < 12 ==> (#[trigger] bit(v.pieces[i], s) <==> v.mailbox[s] == Some(((i / 6) as u8, (i % 6) as u8)))
    &&& forall|c: int|
        0 <= c < 2 ==> (#[trigger] bit(v.color[c], s) <==> (v.mailbox[s] is Some && v.mailbox[s].unwrap().0 == c))
    &&& (bit(v.all, s) <==> v.mailbox[s] is Some)
}

/// Whether the boards agree on square `s`.
fn square_consistent(bb: &Bitboards, s: u8) -> (r: bool)
    requires
        s < 64,
    ensures
        r == square_agrees(bb.view(), s as int),
{
    let ghost v = bb.view();
    let m = bb.mailbox[s as usize];
    let cell_fine = match m {
        Some((c, p)) => c < 2 && p < 6,
        None => true,
    };
    if !cell_fine {
        return false;
    }
    let mut i: usize = 0;
    while i < 12
        invariant
            i <= 12,
            s < 64,
            v == bb.view(),
            m == v.mailbox[s as int],
            forall|j: int|
                0 <= j < i ==> (#[trigger] bit(v.pieces[j], s as int) <==> v.mailbox[s as int] == Some(
                    ((j / 6) as u8, (j % 6) as u8),
                )),
        decreases 12 - i,
    {
        let c = i / 6;
        let k = i % 6;
        let expect = match m {
            Some((mc, mp)) => mc as usize == c && mp as usize == k,
            None => false,
        };
        proof {
            assert(v.pieces[i as int] == bb.pieces[c as int][k as int]);
        }
        proof {
            assert(expect == (v.mailbox[s as int] == Some(((i / 6) as u8, (i % 6) as u8))));
        }
        if is_set(bb.pieces[c][k], s) != expect {
            proof {
                assert(bit(v.pieces[i as int], s as int) != (v.mailbox[s as int] == Some(
                    ((i / 6) as u8, (i % 6) as u8),
                )));
            }
            return false;
        }
        i = i + 1;
    }
    let mut c: usize = 0;
    while c < 2
        invariant
            c <= 2,
            s < 64,
            v == bb.view(),
            m == v.mailbox[s as int],
            forall|d: int|
                0 <= d < c ==> (#[trigger] bit(v.color[d], s as int) <==> (v.mailbox[s as int] is Some
                    && v.mailbox[s as int].unwrap().0 == d)),
        decreases 2 - c,
    {
        let expect = match m {
            Some((mc, _)) => mc as usize == c,
            None => false,
        };
        proof {
            assert(v.color[c as int] == bb.color[c as int]);
        }
        if is_set(bb.color[c], s) != expect {
            proof {
                assert(bit(v.color[c as int], s as int) != (v.mailbox[s as int] is Some && v.mailbox[s as int].unwrap().0
                    == c));
            }
            return false;
        }
        c = c + 1;
    }
    is_set(bb.all, s) == m.is_some()
}

/// Whether the boards agree with each other: the piece boards, the color
/// boards and the occupancy with the cells.
pub fn boards_agree(bb: &Bitboards) -> (r: bool)
    ensures
        r == bb.wf(),
{
    let ghost v = bb.view();
    let mut s: u8 = 0;
    while s < 64
        invariant
            s <= 64,
            v == bb.view(),
            forall|t: int| 0 <= t < s ==> #[trigger] square_agrees(v, t),
        decreases 64 - s,
    {
        if !square_consistent(bb, s) {
            proof {
                assert(!square_agrees(v, s as int));
                if v.wf() {
                    assert(cell_ok(v.mailbox[s as int]));
                    assert forall|i: int|
                        0 <= i < 12 implies (#[trigger] bit(v.pieces[i], s as int) <==> v.mailbox[s as int] == Some(
                        ((i / 6) as u8, (i % 6) as u8),
                    )) by {}
                    assert forall|c: int|
                        0 <= c < 2 implies (#[trigger] bit(v.color[c], s as int) <==> (v.mailbox[s as int] is Some
                        && v.mailbox[s as int].unwrap().0 == c)) by {}
                }
            }
            return false;
        }
        s = s + 1;
    }
    proof {
        assert forall|i: int, t: int|
            0 <= i < 12 && 0 <= t < 64 implies (#[trigger] bit(v.pieces[i], t) <==> v.mailbox[t] == Some(
            ((i / 6) as u8, (i % 6) as u8),
        )) by {
            assert(square_agrees(v, t));
        }
        assert forall|c: int, t: int|
            0 <= c < 2 && 0 <= t < 64 implies (#[trigger] bit(v.color[c], t) <==> (v.mailbox[t] is Some
            && v.mailbox[t].unwrap().0 == c)) by {
            assert(square_agrees(v, t));
        }
        assert forall|t: int| 0 <= t < 64 implies (#[trigger] bit(v.all, t) <==> v.mailbox[t] is Some) by {
            assert(square_agrees(v, t));
        }
        assert forall|t: int| 0 <= t < 64 implies cell_ok(#[trigger] v.mailbox[t]) by {
            assert(square_agrees(v, t));
        }
    }
    true
}

/// Whether color `c` has exactly one king, by the cells.
fn single_king(bb: &Bitboards, c: u8) -> (r: bool)
    requires
        c < 2,
    ensures
        r == one_king(bb.view(), c as int),
{
    let ghost v = bb.view();
    let mut found: Option<u8> = None;
    let mut s: u8 = 0;
    while s < 64
        invariant
            s <= 64,
            c < 2,
            v == bb.view(),
            match found {
                Some(k) => k < s && piece_at(v, k as int, c as int, 5) && forall|t: int|
                    0 <= t < s && t != k ==> !#[trigger] piece_at(v, t, c as int, 5),
                None => forall|t: int| 0 <= t < s ==> !#[trigger] piece_at(v, t, c as int, 5),
            },
        decreases 64 - s,
    {
        let here = match bb.mailbox[s as usize] {
            Some((mc, mp)) => mc == c && mp == 5,
            None => false,
        };
        if here {
            match found {
                Some(k) => {
                    proof {
                        assert(piece_at(v, k as int, c as int, 5));
                        assert(piece_at(v, s as int, c as int, 5));
                        if one_king(v, c as int) {
                            let w = choose|w: int| #[trigger] king_on(v, c as int, w);
                            assert(piece_at(v, k as int, c as int, 5) <==> k == w);
                            assert(piece_at(v, s as int, c as int, 5) <==> s == w);
                        }
                    }
                    return false;
                },
                None => {
                    found = Some(s);
                },
            }
        }
        s = s + 1;
    }
    match found {
        Some(k) => {
            proof {
                assert(king_on(v, c as int, k as int));
            }
            true
        },
        None => {
            proof {
                if one_king(v, c as int) {
                    let w = choose|w: int| #[trigger] king_on(v, c as int, w);
                    assert(piece_at(v, w, c as int, 5));
                }
            }
            false
        },
    }
}

impl Position {
    /// Whether the position can arise in a game: its boards agree, its en
    /// passant square and castling rights fit the board, each side has one
    /// king, and the side not to move is not in check.
    pub fn is_sound(&self) -> (r: bool)
        ensures
            r == sound(*self),
    {
        if !boards_agree(&self.bitboards) {
            return false;
        }
        let ghost v = self.view();
        let c: u8 = match self.side_to_move {
            Color::White => 0,
            Color::Black => 1,
        };
        proof {
            assert(c as int == self.side_to_move.index());
        }
        match self.en_passant {
            Some(e) => {
                if e >= 64 {
                    return false;
                }
                let victim_fits = if c == 0 {
                    e >= 8
                } else {
                    e < 56
                };
                if !victim_fits {
                    return false;
                }
                let victim = if c == 0 {
                    e - 8
                } else {
                    e + 8
                };
                proof {
                    assert(victim as int == ep_victim(c as int, e as int));
                }
                let empty_target = self.bitboards.mailbox[e as usize].is_none();
                let pawn_there = match self.bitboards.mailbox[victim as usize] {
                    Some((vc, vp)) => vc == 1 - c && vp == 0,
                    None => false,
                };
                if !empty_target || !pawn_there {
                    return false;
                }
            },
            None => {},
        }
        proof {
            assert(self.wf());
            assert(ep_ok(*self));
        }
        let white_castles = self.castling_rights & 0b0011 != 0;
        let black_castles = self.castling_rights & 0b1100 != 0;
        let white_king_home = match self.bitboards.mailbox[4] {
            Some((kc, kp)) => kc == 0 && kp == 5,
            None => false,
        };
        let black_king_home = match self.bitboards.mailbox[60] {
            Some((kc, kp)) => kc == 1 && kp == 5,
            None => false,
        };
        if (white_castles && !white_king_home) || (black_castles && !black_king_home) {
            return false;
        }
        proof {
            assert(castle_ok(*self));
        }
        if !single_king(&self.bitboards, 0) || !single_king(&self.bitboards, 1) {
            return false;
        }
        proof {
            let kw = choose|k: int| #[trigger] king_on(v, 0, k);
            let kb = choose|k: int| #[trigger] king_on(v, 1, k);
            crate::movegen::lemma_king_square(v, 0, kw);
            crate::movegen::lemma_king_square(v, 1, kb);
            assert(self.valid());
        }
        let other = self.side_to_move.opposite();
        !self.is_in_check(other)
    }
}

} // verus!

//! Forsyth-Edwards Notation: reading a position from its six fields
//! (placement, side to move, castling rights, en passant square, and the
//! two move clocks), and writing one.
use vstd::prelude::*;
use crate::bits::{bit, sq_mask, group_bit_lemmas};
use crate::bitboards::{Bitboards, Cell, pidx, last_owner, or6, disjoint, start_mailbox, lemma_view_index};
use crate::types::{Color, Piece, lemma_piece_index, lemma_color_index};
use crate::position::{Position, cell_piece};
use crate::text::{
    chars_of, split_fields, fields, is_digit, digit_value, parse_u32, parse_u32_chars, decimal,
    push_decimal, string_from_chars,
};
use crate::zobrist::ZobristKeys;

verus! {

broadcast use group_bit_lemmas, lemma_piece_index, lemma_color_index, lemma_view_index;

/// The word that stands for the starting position.
pub open spec fn startpos_word() -> Seq<char> {
    seq!['s', 't', 'a', 'r', 't', 'p', 'o', 's']
}

/// The color and kind a placement letter names: upper case White, lower
/// case Black; P N B R Q K for pawn, knight, bishop, rook, queen, king.
pub open spec fn fen_piece(ch: char) -> Option<(int, int)> {
    if ch == 'P' {
        Some((0, 0))
    } else if ch == 'N' {
        Some((0, 1))
    } else if ch == 'B' {
        Some((0, 2))
    } else if ch == 'R' {
        Some((0, 3))
    } else if ch == 'Q' {
        Some((0, 4))
    } else if ch == 'K' {
        Some((0, 5))
    } else if ch == 'p' {
        Some((1, 0))
    } else if ch == 'n' {
        Some((1, 1))
    } else if ch == 'b' {
        Some((1, 2))
    } else if ch == 'r' {
        Some((1, 3))
    } else if ch == 'q' {
        Some((1, 4))
    } else if ch == 'k' {
        Some((1, 5))
    } else {
        None
    }
}

/// Reading the placement field `s` from index `i`, at row `row` (0 is the
/// eighth rank, each `/` starts the next) and file `file` (a digit skips
/// that many files): a piece of color `c` and kind `k` is put on `sq`.
pub open spec fn places(s: Seq<char>, i: int, row: int, file: int, sq: int, c: int, k: int) -> bool
    decreases s.len() - i,
{
    if i < 0 || i >= s.len() {
        false
    } else if s[i] == '/' {
        places(s, i + 1, row + 1, 0, sq, c, k)
    } else if is_digit(s[i]) {
        places(s, i + 1, row, file + digit_value(s[i]), sq, c, k)
    } else {
        (fen_piece(s[i]) == Some((c, k)) && sq == (7 - row) * 8 + file) || places(s, i + 1, row, file + 1, sq, c, k)
    }
}

/// The placement field can be read from index `i` on: every character
/// other than `/` and the digits is a piece letter landing on a square.
pub open spec fn placement_ok(s: Seq<char>, i: int, row: int, file: int) -> bool
    decreases s.len() - i,
{
    if i < 0 || i >= s.len() {
        true
    } else if s[i] == '/' {
        placement_ok(s, i + 1, row + 1, 0)
    } else if is_digit(s[i]) {
        placement_ok(s, i + 1, row, file + digit_value(s[i]))
    } else {
        &&& fen_piece(s[i]) is Some
        &&& row <= 7
        &&& (7 - row) * 8 + file < 64
        &&& placement_ok(s, i + 1, row, file + 1)
    }
}

/// The castling rights the castling field grants: K, Q, k and q for the
/// four bits.
pub open spec fn castling_value(t: Seq<char>) -> u8 {
    ((if t.contains('K') { 1u8 } else { 0u8 }) | (if t.contains('Q') { 2u8 } else { 0u8 }) | (if t.contains(
        'k',
    ) { 4u8 } else { 0u8 }) | (if t.contains('q') { 8u8 } else { 0u8 })) as u8
}

/// The castling field holds only K, Q, k, q and `-`.
pub open spec fn castling_ok(t: Seq<char>) -> bool {
    forall|i: int|
        0 <= i < t.len() ==> (#[trigger] t[i] == 'K' || t[i] == 'Q' || t[i] == 'k' || t[i] == 'q' || t[i]
            == '-')
}

/// The en passant field is `-`, or a file letter and a rank digit whose
/// square number fits in a byte.
pub open spec fn ep_field_ok(t: Seq<char>) -> bool {
    t == seq!['-'] || {
        &&& t.len() >= 2
        &&& 97 <= (t[0] as u32) < 128
        &&& 49 <= (t[1] as u32) < 128
        &&& ((t[1] as u32) - 49) * 8 + ((t[0] as u32) - 97) <= 255
    }
}

/// The en passant square the field names.
pub open spec fn ep_value(t: Seq<char>) -> Option<u8> {
    if t == seq!['-'] {
        None
    } else {
        Some((((t[1] as u32) - 49) * 8 + ((t[0] as u32) - 97)) as u8)
    }
}

/// Each side has a king in the placement.
pub open spec fn has_kings(s: Seq<char>) -> bool {
    &&& exists|sq: int| 0 <= sq < 64 && #[trigger] places(s, 0, 0, 0, sq, 0, 5)
    &&& exists|sq: int| 0 <= sq < 64 && #[trigger] places(s, 0, 0, 0, sq, 1, 5)
}

/// `Position::from_fen` can read `f`: the word `startpos`, or at least six
/// fields with a readable placement holding both kings, `w` or `b`,
/// readable castling rights and a readable en passant field.
pub open spec fn fen_ok(f: Seq<char>) -> bool {
    let fs = fields(f);
    f == startpos_word() || {
        &&& fs.len() >= 6
        &&& placement_ok(fs[0], 0, 0, 0)
        &&& has_kings(fs[0])
        &&& (fs[1] == seq!['w'] || fs[1] == seq!['b'])
        &&& castling_ok(fs[2])
        &&& ep_field_ok(fs[3])
    }
}

/// `r` is the position read from the fields `fs`: the piece boards hold
/// what the placement puts where, the color boards, the occupancy and the
/// mailbox are computed from them (the mailbox naming the last board, in
/// the order White then Black and pawn to king, where two share a square),
/// and the other fields are read as they stand; a clock that does not
/// read as a number is 0 for the fifty-move clock and 1 for the move number.
pub open spec fn read_from_fields(fs: Seq<Seq<char>>, r: Position) -> bool {
    let v = r.view();
    &&& forall|sq: int, c: int, k: int|
        0 <= sq < 64 && 0 <= c < 2 && 0 <= k < 6 ==> (#[trigger] bit(v.pieces[pidx(c, k)], sq) <==> places(
            fs[0],
            0,
            0,
            0,
            sq,
            c,
            k,
        ))
    &&& v.color[0] == or6(v.pieces, 0)
    &&& v.color[1] == or6(v.pieces, 1)
    &&& v.all == v.color[0] | v.color[1]
    &&& forall|s: int| 0 <= s < 64 ==> #[trigger] v.mailbox[s] == last_owner(v.pieces, s, 12)
    &&& disjoint(v.pieces) ==> r.bitboards.wf()
    &&& r.side_to_move == (if fs[1] == seq!['w'] { Color::White } else { Color::Black })
    &&& r.castling_rights == castling_value(fs[2])
    &&& r.en_passant == ep_value(fs[3])
    &&& r.halfmove_clock == (match parse_u32(fs[4]) {
        Some(n) => n,
        None => 0,
    })
    &&& r.fullmove_count == (match parse_u32(fs[5]) {
        Some(n) => n,
        None => 1,
    })
    &&& r.zobrist_keys.drawn()
}

/// `r` is the position `Position::from_fen` reads from `f`: the starting
/// position for `startpos`, else the position the fields describe.
pub open spec fn fen_read(f: Seq<char>, r: Position) -> bool {
    if f == startpos_word() {
        &&& r.wf()
        &&& r.bitboards.mailbox@ == start_mailbox()
        &&& r.side_to_move == Color::White
        &&& r.castling_rights == 0b1111
        &&& r.en_passant is None
        &&& r.halfmove_clock == 0
        &&& r.fullmove_count == 1
        &&& r.zobrist_keys.drawn()
    } else {
        read_from_fields(fields(f), r)
    }
}

/// Whether `f` is the word `startpos`.
pub(crate) fn is_startpos(f: &Vec<char>) -> (r: bool)
    ensures
        r == (f@ == startpos_word()),
{
    if f.len() != 8 {
        return false;
    }
    let r = f[0] == 's' && f[1] == 't' && f[2] == 'a' && f[3] == 'r' && f[4] == 't' && f[5] == 'p' && f[6]
        == 'o' && f[7] == 's';
    proof {
        if r {
            assert(f@ =~= startpos_word());
        }
    }
    r
}

/// The color and kind of a piece letter.
fn piece_of_char(ch: char) -> (r: (usize, usize))
    requires
        fen_piece(ch) is Some,
    ensures
        fen_piece(ch) == Some((r.0 as int, r.1 as int)),
        r.0 < 2,
        r.1 < 6,
{
    match ch {
        'P' => (0, 0),
        'N' => (0, 1),
        'B' => (0, 2),
        'R' => (0, 3),
        'Q' => (0, 4),
        'K' => (0, 5),
        'p' => (1, 0),
        'n' => (1, 1),
        'b' => (1, 2),
        'r' => (1, 3),
        'q' => (1, 4),
        _ => (1, 5),
    }
}

/// The piece boards of a placement field; the other boards stay empty.
pub(crate) fn read_placement(s: &Vec<char>) -> (bb: Bitboards)
    requires
        placement_ok(s@, 0, 0, 0),
    ensures
        forall|sq: int, c: int, k: int|
            0 <= sq < 64 && 0 <= c < 2 && 0 <= k < 6 ==> (#[trigger] bit(bb.view().pieces[pidx(c, k)], sq)
                <==> places(s@, 0, 0, 0, sq, c, k)),
{
    let mut bb = Bitboards::empty();
    let mut row: usize = 0;
    let mut file: usize = 0;
    let ghost mut row_s: int = 0;
    let ghost mut file_s: int = 0;
    let mut i: usize = 0;
    while i < s.len()
        invariant
            i <= s.len(),
            placement_ok(s@, i as int, row_s, file_s),
            row_s >= 0,
            file_s >= 0,
            row == row_s || (row >= 8 && row_s >= 8),
            row <= 8,
            file == file_s || (file >= 64 && file_s >= 64),
            file <= 72,
            forall|sq: int, c: int, k: int|
                0 <= sq < 64 && 0 <= c < 2 && 0 <= k < 6 ==> (places(s@, 0, 0, 0, sq, c, k) <==> (#[trigger] bit(
                    bb.view().pieces[pidx(c, k)],
                    sq,
                ) || places(s@, i as int, row_s, file_s, sq, c, k))),
        decreases s.len() - i,
    {
        let ch = s[i];
        let ghost r0 = row_s;
        let ghost f0 = file_s;
        let ghost b0 = bb;
        if ch == '/' {
            if row < 8 {
                row = row + 1;
            }
            file = 0;
            proof {
                row_s = row_s + 1;
                file_s = 0;
            }
        } else if '0' <= ch && ch <= '9' {
            let d = (ch as u32 - '0' as u32) as usize;
            if file < 64 {
                file = file + d;
            }
            proof {
                file_s = file_s + digit_value(ch);
            }
        } else {
            let (c, k) = piece_of_char(ch);
            let sq = (7 - row) * 8 + file;
            let mut rank_boards = bb.pieces[c];
            rank_boards[k] = rank_boards[k] | (1u64 << (sq as u64));
            bb.pieces[c] = rank_boards;
            proof {
                assert forall|t: int, cc: int, kk: int|
                    0 <= t < 64 && 0 <= cc < 2 && 0 <= kk < 6 implies (#[trigger] bit(bb.view().pieces[pidx(cc, kk)], t)
                    <==> (bit(b0.view().pieces[pidx(cc, kk)], t) || (cc == c && kk == k && t == sq))) by {
                    if cc == c && kk == k {
                        assert(bb.pieces[cc][kk] == b0.pieces[cc][kk] | sq_mask(sq as int));
                        assert(bit(sq_mask(sq as int), t) <==> t == sq);
                    } else {
                        assert(bb.pieces[cc][kk] == b0.pieces[cc][kk]);
                    }
                }
            }
            file = file + 1;
            proof {
                file_s = file_s + 1;
            }
        }
        let ghost i0 = i as int;
        i = i + 1;
        proof {
            assert forall|sq: int, c: int, k: int|
                0 <= sq < 64 && 0 <= c < 2 && 0 <= k < 6 implies (places(s@, 0, 0, 0, sq, c, k) <==> (#[trigger] bit(
                    bb.view().pieces[pidx(c, k)],
                    sq,
                ) || places(s@, i as int, row_s, file_s, sq, c, k))) by {
                assert(places(s@, 0, 0, 0, sq, c, k) <==> (bit(b0.view().pieces[pidx(c, k)], sq) || places(s@, i0, r0, f0, sq, c, k)));
                assert(i0 + 1 == i as int);
            }
            assert(forall|sq: int, c: int, k: int|
                0 <= sq < 64 && 0 <= c < 2 && 0 <= k < 6 ==> (places(s@, 0, 0, 0, sq, c, k) <==> (#[trigger] bit(
                    bb.view().pieces[pidx(c, k)],
                    sq,
                ) || places(s@, i as int, row_s, file_s, sq, c, k))));
        }
    }
    bb
}

/// Or-ing a right into the four bits sets that bit.
proof fn lemma_rights_or(a: u8, b: u8, d: u8, e: u8)
    by (bit_vector)
    requires
        a == 0u8 || a == 1u8,
        b == 0u8 || b == 2u8,
        d == 0u8 || d == 4u8,
        e == 0u8 || e == 8u8,
    ensures
        a | b | d | e | 1u8 == (1u8 | b | d | e),
        a | b | d | e | 2u8 == (a | 2u8 | d | e),
        a | b | d | e | 4u8 == (a | b | 4u8 | e),
        a | b | d | e | 8u8 == (a | b | d | 8u8),
        (0u8 | 0u8 | 0u8 | 0u8) == 0u8,
{
}

/// The castling rights of a castling field.
fn read_castling(t: &Vec<char>) -> (cr: u8)
    requires
        castling_ok(t@),
    ensures
        cr == castling_value(t@),
{
    let mut cr: u8 = 0;
    let mut i: usize = 0;
    proof {
        assert(t@.take(0) =~= Seq::<char>::empty());
        lemma_rights_or(0, 0, 0, 0);
    }
    while i < t.len()
        invariant
            i <= t.len(),
            castling_ok(t@),
            cr == castling_value(t@.take(i as int)),
        decreases t.len() - i,
    {
        let ghost pre = t@.take(i as int);
        let c = t[i];
        if c == 'K' {
            cr = cr | 1;
        } else if c == 'Q' {
            cr = cr | 2;
        } else if c == 'k' {
            cr = cr | 4;
        } else if c == 'q' {
            cr = cr | 8;
        }
        proof {
            let post = t@.take(i as int + 1);
            assert(post =~= pre.push(c));
            assert forall|x: char| #[trigger] post.contains(x) <==> pre.contains(x) || x == c by {
                if post.contains(x) && x != c {
                    let j = choose|j: int| 0 <= j < post.len() && post[j] == x;
                    assert(pre[j] == x);
                }
                if pre.contains(x) {
                    let j = choose|j: int| 0 <= j < pre.len() && pre[j] == x;
                    assert(post[j] == x);
                }
                if x == c {
                    assert(post[i as int] == x);
                }
            }
            let a = if pre.contains('K') { 1u8 } else { 0u8 };
            let b = if pre.contains('Q') { 2u8 } else { 0u8 };
            let d = if pre.contains('k') { 4u8 } else { 0u8 };
            let e = if pre.contains('q') { 8u8 } else { 0u8 };
            lemma_rights_or(a, b, d, e);
        }
        i = i + 1;
    }
    proof {
        assert(t@.take(i as int) =~= t@);
    }
    cr
}

/// The en passant square of an en passant field.
fn read_en_passant(t: &Vec<char>) -> (ep: Option<u8>)
    requires
        ep_field_ok(t@),
    ensures
        ep == ep_value(t@),
{
    if t.len() == 1 && t[0] == '-' {
        proof {
            assert(t@ =~= seq!['-']);
        }
        return None;
    }
    proof {
        if t@ == seq!['-'] {
            assert(t@.len() == 1 && t@[0] == '-');
        }
    }
    let file = (t[0] as u32) - 97;
    let rank = (t[1] as u32) - 49;
    Some((rank * 8 + file) as u8)
}

impl Position {
    /// Reads a position from FEN, or `startpos` for the starting position.
    /// Panics (in `requires`) on what it cannot read: fewer than six
    /// fields, a letter that names no piece or a piece off the board, a
    /// missing king, a side other than `w` or `b`, a castling letter other
    /// than K, Q, k, q or `-`, or an en passant field that is neither `-`
    /// nor a file and a rank.
    pub fn from_fen(fen: &str) -> (r: Self)
        requires
            fen_ok(fen@),
        ensures
            fen_read(fen@, r),
    {
        let f = chars_of(fen);
        if is_startpos(&f) {
            return Self::new();
        }
        let parts = split_fields(&f);
        proof {
            assert(parts@[0]@ == fields(fen@)[0]);
            assert(parts@[1]@ == fields(fen@)[1]);
            assert(parts@[2]@ == fields(fen@)[2]);
            assert(parts@[3]@ == fields(fen@)[3]);
            assert(parts@[4]@ == fields(fen@)[4]);
            assert(parts@[5]@ == fields(fen@)[5]);
        }
        let mut bitboards = read_placement(&parts[0]);
        let ghost placed = bitboards;
        bitboards.recompute();
        proof {
            assert(bitboards.view().pieces =~= placed.view().pieces);
        }
        let side_to_move = if parts[1].len() == 1 && parts[1][0] == 'w' {
            Color::White
        } else {
            Color::Black
        };
        proof {
            if parts@[1]@ == seq!['w'] {
                assert(parts@[1]@.len() == 1 && parts@[1]@[0] == 'w');
            } else {
                assert(parts@[1]@ == seq!['b']);
            }
        }
        let castling_rights = read_castling(&parts[2]);
        let en_passant = read_en_passant(&parts[3]);
        let halfmove_clock = match parse_u32_chars(&parts[4]) {
            Some(n) => n,
            None => 0,
        };
        let fullmove_count = match parse_u32_chars(&parts[5]) {
            Some(n) => n,
            None => 1,
        };
        let r = Self {
            bitboards,
            side_to_move,
            castling_rights,
            en_passant,
            halfmove_clock,
            fullmove_count,
            zobrist_keys: ZobristKeys::new(),
        };
        proof {
            let fs = fields(fen@);
            let v = r.view();
            assert(r.side_to_move == (if fs[1] == seq!['w'] { Color::White } else { Color::Black }));
            assert(r.castling_rights == castling_value(fs[2]));
            assert(r.en_passant == ep_value(fs[3]));
            assert(v.color[0] == or6(v.pieces, 0));
            assert(v.all == v.color[0] | v.color[1]);
            assert(forall|s: int| 0 <= s < 64 ==> #[trigger] v.mailbox[s] == last_owner(v.pieces, s, 12));
            assert(disjoint(v.pieces) ==> r.bitboards.wf());
            assert(r.halfmove_clock == (match parse_u32(fs[4]) {
                Some(n) => n,
                None => 0,
            }));
            assert(r.zobrist_keys.drawn());
        }
        r
    }
}

/// The letter of a piece in FEN.
pub open spec fn piece_letter(c: Color, p: Piece) -> char {
    match (c, p) {
        (Color::White, Piece::Pawn) => 'P',
        (Color::White, Piece::Knight) => 'N',
        (Color::White, Piece::Bishop) => 'B',
        (Color::White, Piece::Rook) => 'R',
        (Color::White, Piece::Queen) => 'Q',
        (Color::White, Piece::King) => 'K',
        (Color::Black, Piece::Pawn) => 'p',
        (Color::Black, Piece::Knight) => 'n',
        (Color::Black, Piece::Bishop) => 'b',
        (Color::Black, Piece::Rook) => 'r',
        (Color::Black, Piece::Queen) => 'q',
        (Color::Black, Piece::King) => 'k',
    }
}

/// A count of empty squares as it is written: its digits, or nothing for none.
pub open spec fn gap_text(empty: nat) -> Seq<char> {
    if empty > 0 {
        decimal(empty)
    } else {
        Seq::empty()
    }
}

/// The text of rank `rank` from file `file` on, with `empty` empty squares
/// just passed: each piece's letter, each run of empty squares as its length.
pub open spec fn rank_text(m: Seq<Cell>, rank: int, file: int, empty: nat) -> Seq<char>
    decreases 8 - file,
{
    if file < 0 || file >= 8 {
        gap_text(empty)
    } else {
        match cell_piece(m[rank * 8 + file]) {
            Some((c, p)) => gap_text(empty) + seq![piece_letter(c, p)] + rank_text(m, rank, file + 1, 0),
            None => rank_text(m, rank, file + 1, empty + 1),
        }
    }
}

/// The separator after rank `rank`: a slash, but after the first rank.
pub open spec fn rank_sep(rank: int) -> Seq<char> {
    if rank != 0 {
        seq!['/']
    } else {
        Seq::empty()
    }
}

/// The placement text of ranks `rank` down to the first.
pub open spec fn board_text(m: Seq<Cell>, rank: int) -> Seq<char>
    decreases rank + 1,
{
    if rank < 0 {
        Seq::empty()
    } else {
        rank_text(m, rank, 0, 0) + rank_sep(rank) + board_text(m, rank - 1)
    }
}

/// The castling field: K, Q, k, q for the rights held, or `-` for none.
pub open spec fn castling_text(cr: u8) -> Seq<char> {
    let t = (if cr & 1 != 0 { seq!['K'] } else { Seq::empty() }) + (if cr & 2 != 0 {
        seq!['Q']
    } else {
        Seq::empty()
    }) + (if cr & 4 != 0 { seq!['k'] } else { Seq::empty() }) + (if cr & 8 != 0 {
        seq!['q']
    } else {
        Seq::empty()
    });
    if t.len() == 0 {
        seq!['-']
    } else {
        t
    }
}

/// The en passant field: the square's file letter and rank digit, or `-`.
pub open spec fn ep_text(ep: Option<u8>) -> Seq<char> {
    match ep {
        Some(e) => seq![((e % 8) + 97) as char, ((e / 8) + 49) as char],
        None => seq!['-'],
    }
}

/// The FEN of a position.
pub open spec fn fen_of(p: Position) -> Seq<char> {
    board_text(p.bitboards.mailbox@, 7) + seq![' ', if p.side_to_move == Color::White { 'w' } else { 'b' }]
        + seq![' '] + castling_text(p.castling_rights) + seq![' '] + ep_text(p.en_passant) + seq![' ']
        + decimal(p.halfmove_clock as nat) + seq![' '] + decimal(p.fullmove_count as nat)
}

/// The letter of a piece.
pub(crate) fn letter_of(c: Color, p: Piece) -> (ch: char)
    ensures
        ch == piece_letter(c, p),
{
    match (c, p) {
        (Color::White, Piece::Pawn) => 'P',
        (Color::White, Piece::Knight) => 'N',
        (Color::White, Piece::Bishop) => 'B',
        (Color::White, Piece::Rook) => 'R',
        (Color::White, Piece::Queen) => 'Q',
        (Color::White, Piece::King) => 'K',
        (Color::Black, Piece::Pawn) => 'p',
        (Color::Black, Piece::Knight) => 'n',
        (Color::Black, Piece::Bishop) => 'b',
        (Color::Black, Piece::Rook) => 'r',
        (Color::Black, Piece::Queen) => 'q',
        (Color::Black, Piece::King) => 'k',
    }
}

impl Position {
    /// Appends the placement field.
    fn push_placement(&self, fen: &mut Vec<char>)
        ensures
            final(fen)@ == old(fen)@ + board_text(self.bitboards.mailbox@, 7),
    {
        let ghost m = self.bitboards.mailbox@;
        let ghost target = old(fen)@ + board_text(m, 7);
        let mut rank: usize = 8;
        while rank > 0
            invariant
                rank <= 8,
                m == self.bitboards.mailbox@,
                target == fen@ + board_text(m, rank as int - 1),
            decreases rank,
        {
            rank = rank - 1;
            let mut empty_count: usize = 0;
            let mut file: usize = 0;
            let ghost r = rank as int;
            proof {
                assert(target =~= fen@ + rank_text(m, r, 0, 0) + rank_sep(r) + board_text(m, r - 1));
            }
            while file < 8
                invariant
                    r == rank as int,
                    0 <= r < 8,
                    file <= 8,
                    empty_count <= file,
                    m == self.bitboards.mailbox@,
                    target == fen@ + rank_text(m, r, file as int, empty_count as nat) + rank_sep(r) + board_text(m, r - 1),
                decreases 8 - file,
            {
                let sq = (rank * 8 + file) as u8;
                let ghost before = fen@;
                match self.piece_on(sq) {
                    Some((color, piece)) => {
                        if empty_count != 0 {
                            push_decimal(fen, empty_count as u64);
                        }
                        let ch = letter_of(color, piece);
                        fen.push(ch);
                        proof {
                            assert(fen@ =~= before + gap_text(empty_count as nat) + seq![piece_letter(color, piece)]);
                        }
                        empty_count = 0;
                    },
                    None => {
                        empty_count = empty_count + 1;
                    },
                }
                file = file + 1;
                proof {
                    assert(target =~= fen@ + rank_text(m, r, file as int, empty_count as nat) + rank_sep(r) + board_text(m, r - 1));
                }
            }
            let ghost before = fen@;
            if empty_count != 0 {
                push_decimal(fen, empty_count as u64);
            }
            if rank != 0 {
                fen.push('/');
            }
            proof {
                assert(fen@ =~= before + gap_text(empty_count as nat) + rank_sep(r));
                assert(target =~= fen@ + board_text(m, r - 1));
            }
        }
        proof {
            assert(fen@ =~= target);
        }
    }

    /// Writes the position in FEN.
    pub fn to_fen(&self) -> (r: String)
        ensures
            r@ == fen_of(*self),
    {
        let mut fen: Vec<char> = Vec::new();
        self.push_placement(&mut fen);
        fen.push(' ');
        match self.side_to_move {
            Color::White => fen.push('w'),
            Color::Black => fen.push('b'),
        }
        fen.push(' ');
        push_castling(&mut fen, self.castling_rights);
        fen.push(' ');
        match self.en_passant {
            Some(ep) => {
                let file = (ep % 8) + 97;
                let rank = (ep / 8) + 49;
                fen.push(file as char);
                fen.push(rank as char);
            },
            None => fen.push('-'),
        }
        fen.push(' ');
        push_decimal(&mut fen, self.halfmove_clock as u64);
        fen.push(' ');
        push_decimal(&mut fen, self.fullmove_count as u64);
        proof {
            assert(fen@ =~= fen_of(*self));
        }
        string_from_chars(fen)
    }
}

/// Appends the castling field.
fn push_castling(fen: &mut Vec<char>, cr: u8)
    ensures
        final(fen)@ == old(fen)@ + castling_text(cr),
{
    let ghost t = (if cr & 1 != 0 { seq!['K'] } else { Seq::empty() }) + (if cr & 2 != 0 {
        seq!['Q']
    } else {
        Seq::empty()
    }) + (if cr & 4 != 0 { seq!['k'] } else { Seq::empty() }) + (if cr & 8 != 0 {
        seq!['q']
    } else {
        Seq::empty()
    });
    let mut castling: Vec<char> = Vec::new();
    if cr & 1 != 0 {
        castling.push('K');
    }
    if cr & 2 != 0 {
        castling.push('Q');
    }
    if cr & 4 != 0 {
        castling.push('k');
    }
    if cr & 8 != 0 {
        castling.push('q');
    }
    proof {
        assert(castling@ =~= t);
    }
    if castling.len() == 0 {
        castling.push('-');
    }
    proof {
        assert(castling@ =~= castling_text(cr));
    }
    let ghost before = fen@;
    let mut i: usize = 0;
    while i < castling.len()
        invariant
            i <= castling.len(),
            fen@ == before + castling@.take(i as int),
        decreases castling.len() - i,
    {
        fen.push(castling[i]);
        i = i + 1;
        proof {
            assert(fen@ =~= before + castling@.take(i as int));
        }
    }
    proof {
        assert(castling@.take(i as int) =~= castling@);
    }
}

} // verus!

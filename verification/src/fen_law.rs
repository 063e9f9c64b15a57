//! Writing a position in FEN and reading the text back gives the position
//! again: its boards, side to move, castling rights, en passant square and
//! both clocks.
use vstd::prelude::*;
use crate::text::{
    is_ws, token_end, fields_from, fields, lemma_token_end, is_digit, digit_value, digits_value, all_digits, unsigned_part, parse_u32, decimal, digit_char,
};
use crate::fen::{
    castling_text, castling_value, castling_ok, ep_text, ep_field_ok, ep_value, places, placement_ok, fen_piece, piece_letter, gap_text, rank_text, rank_sep, board_text, fen_of, fen_ok, fen_read, read_from_fields, startpos_word, has_kings,
};
use crate::bits::{bit, lemma_zero_iff_empty};
use crate::bitboards::{Cell, cell_ok, pidx, disjoint, lemma_wf_determined};
use crate::position::{Position, cell_piece};
use crate::types::Color;

verus! {

/// No character of `s` is whitespace.
pub open spec fn no_ws(s: Seq<char>) -> bool {
    forall|i: int| 0 <= i < s.len() ==> !is_ws(#[trigger] s[i])
}

/// Reading a token that starts past a prefix reads it in the rest.
proof fn lemma_token_end_shift(x: Seq<char>, y: Seq<char>, j: int)
    requires
        0 <= j <= y.len(),
    ensures
        token_end(x + y, x.len() + j) == x.len() + token_end(y, j),
    decreases y.len() - j,
{
    let s = x + y;
    if j < y.len() {
        assert(s[x.len() + j] == y[j]);
        if !is_ws(y[j]) {
            lemma_token_end_shift(x, y, j + 1);
        }
    }
}

/// The fields past a prefix are the fields of the rest.
proof fn lemma_fields_shift(x: Seq<char>, y: Seq<char>, j: int)
    requires
        0 <= j <= y.len(),
    ensures
        fields_from(x + y, x.len() + j) == fields_from(y, j),
    decreases y.len() - j,
{
    let s = x + y;
    if j < y.len() {
        assert(s[x.len() + j] == y[j]);
        if is_ws(y[j]) {
            lemma_fields_shift(x, y, j + 1);
        } else {
            lemma_token_end(y, j);
            lemma_token_end_shift(x, y, j);
            let e = token_end(y, j);
            assert(s.subrange(x.len() + j, x.len() + e) =~= y.subrange(j, e));
            lemma_fields_shift(x, y, e);
        }
    }
}

/// A token of non-whitespace runs to the first whitespace after it.
proof fn lemma_token_end_until(s: Seq<char>, i: int, e: int)
    requires
        0 <= i <= e <= s.len(),
        forall|k: int| i <= k < e ==> !is_ws(#[trigger] s[k]),
        e == s.len() || is_ws(s[e]),
    ensures
        token_end(s, i) == e,
    decreases e - i,
{
    if i < e {
        lemma_token_end_until(s, i + 1, e);
    }
}

/// A word without whitespace is a single field.
pub proof fn lemma_fields_word(a: Seq<char>)
    requires
        a.len() > 0,
        no_ws(a),
    ensures
        fields(a) == seq![a],
{
    lemma_token_end_until(a, 0, a.len() as int);
    assert(a.subrange(0, a.len() as int) =~= a);
    assert(fields_from(a, a.len() as int) == Seq::<Seq<char>>::empty());
    assert(seq![a] + Seq::<Seq<char>>::empty() =~= seq![a]);
}

/// A word, a space and more text: the word is the first field, the
/// fields of the rest follow.
pub proof fn lemma_fields_cons(a: Seq<char>, rest: Seq<char>)
    requires
        a.len() > 0,
        no_ws(a),
    ensures
        fields(a + seq![' '] + rest) == seq![a] + fields(rest),
{
    let x = a + seq![' '];
    let s = x + rest;
    assert(s[a.len() as int] == ' ');
    assert forall|k: int| 0 <= k < a.len() implies !is_ws(#[trigger] s[k]) by {
        assert(s[k] == a[k]);
    }
    lemma_token_end_until(s, 0, a.len() as int);
    assert(s.subrange(0, a.len() as int) =~= a);
    lemma_fields_shift(x, rest, 0);
    assert(x.len() == a.len() + 1);
    assert(!is_ws(s[0]));
    lemma_token_end(s, 0);
    assert(fields_from(s, a.len() as int) == fields_from(s, a.len() as int + 1));
    assert(fields_from(s, 0) == seq![s.subrange(0, token_end(s, 0))] + fields_from(s, token_end(s, 0)));
}

/// The decimal digits of a number are digits that read back as it.
pub proof fn lemma_decimal(n: nat)
    ensures
        decimal(n).len() > 0,
        all_digits(decimal(n)),
        no_ws(decimal(n)),
        digits_value(decimal(n)) == n,
    decreases n,
{
    let d = decimal(n);
    assert(digit_value(digit_char(n % 10)) == n % 10);
    if n < 10 {
        assert(d == seq![digit_char(n)]);
        assert(d.drop_last() =~= Seq::<char>::empty());
        assert(digits_value(Seq::<char>::empty()) == 0);
        assert(d.last() == digit_char(n));
        assert(n % 10 == n);
    } else {
        lemma_decimal(n / 10);
        let p = decimal(n / 10);
        assert(d == p.push(digit_char(n % 10)));
        assert(d.drop_last() =~= p);
        assert(d.last() == digit_char(n % 10));
        assert(digits_value(d) == digits_value(p) * 10 + digit_value(digit_char(n % 10)));
        assert(n == (n / 10) * 10 + n % 10);
        assert forall|i: int| 0 <= i < d.len() implies is_digit(#[trigger] d[i]) && !is_ws(d[i]) by {
            if i < p.len() {
                assert(d[i] == p[i]);
                assert(is_digit(p[i]));
                assert(!is_ws(p[i]));
            }
        }
    }
}

/// A number written in decimal reads back as itself.
pub proof fn lemma_parse_decimal(n: u32)
    ensures
        parse_u32(decimal(n as nat)) == Some(n),
{
    lemma_decimal(n as nat);
    let d = decimal(n as nat);
    assert(is_digit(d[0]));
    assert(unsigned_part(d) == d);
}

/// The castling field of rights below 16 reads back as them.
pub proof fn lemma_castling_text(cr: u8)
    requires
        cr < 16,
    ensures
        castling_text(cr).len() > 0,
        no_ws(castling_text(cr)),
        castling_ok(castling_text(cr)),
        castling_value(castling_text(cr)) == cr,
{
    broadcast use vstd::seq_lib::lemma_seq_concat_contains_all_elements;
    let a: Seq<char> = if cr & 1 != 0 { seq!['K'] } else { Seq::empty() };
    let b: Seq<char> = if cr & 2 != 0 { seq!['Q'] } else { Seq::empty() };
    let d: Seq<char> = if cr & 4 != 0 { seq!['k'] } else { Seq::empty() };
    let e: Seq<char> = if cr & 8 != 0 { seq!['q'] } else { Seq::empty() };
    let t = a + b + d + e;
    assert(castling_text(cr) == if t.len() == 0 { seq!['-'] } else { t });
    assert forall|x: char| #[trigger] t.contains(x) <==> ((x == 'K' && cr & 1 != 0) || (x == 'Q' && cr & 2 != 0) || (
    x == 'k' && cr & 4 != 0) || (x == 'q' && cr & 8 != 0)) by {
        assert(seq!['K'].contains(x) <==> x == 'K') by {
            if seq!['K'].contains(x) {
                let j = choose|j: int| 0 <= j < 1 && seq!['K'][j] == x;
            }
            if x == 'K' {
                assert(seq!['K'][0] == x);
            }
        }
        assert(seq!['Q'].contains(x) <==> x == 'Q') by {
            if seq!['Q'].contains(x) {
                let j = choose|j: int| 0 <= j < 1 && seq!['Q'][j] == x;
            }
            if x == 'Q' {
                assert(seq!['Q'][0] == x);
            }
        }
        assert(seq!['k'].contains(x) <==> x == 'k') by {
            if seq!['k'].contains(x) {
                let j = choose|j: int| 0 <= j < 1 && seq!['k'][j] == x;
            }
            if x == 'k' {
                assert(seq!['k'][0] == x);
            }
        }
        assert(seq!['q'].contains(x) <==> x == 'q') by {
            if seq!['q'].contains(x) {
                let j = choose|j: int| 0 <= j < 1 && seq!['q'][j] == x;
            }
            if x == 'q' {
                assert(seq!['q'][0] == x);
            }
        }
        assert(!Seq::<char>::empty().contains(x));
    }
    assert forall|i: int| 0 <= i < t.len() implies (#[trigger] t[i] == 'K' || t[i] == 'Q' || t[i] == 'k' || t[i] == 'q') by {
        assert(t.contains(t[i]));
    }
    let f = castling_text(cr);
    if t.len() == 0 {
        assert(!t.contains('K') && !t.contains('Q') && !t.contains('k') && !t.contains('q'));
        assert(cr & 1 == 0 && cr & 2 == 0 && cr & 4 == 0 && cr & 8 == 0);
        assert(cr == 0) by (bit_vector)
            requires
                cr < 16,
                cr & 1 == 0,
                cr & 2 == 0,
                cr & 4 == 0,
                cr & 8 == 0,
        ;
        assert(f == seq!['-']);
        assert(!f.contains('K')) by {
            if f.contains('K') {
                let j = choose|j: int| 0 <= j < f.len() && f[j] == 'K';
            }
        }
        assert(!f.contains('Q')) by {
            if f.contains('Q') {
                let j = choose|j: int| 0 <= j < f.len() && f[j] == 'Q';
            }
        }
        assert(!f.contains('k')) by {
            if f.contains('k') {
                let j = choose|j: int| 0 <= j < f.len() && f[j] == 'k';
            }
        }
        assert(!f.contains('q')) by {
            if f.contains('q') {
                let j = choose|j: int| 0 <= j < f.len() && f[j] == 'q';
            }
        }
        assert((0u8 | 0u8 | 0u8 | 0u8) == 0u8) by (bit_vector);
    } else {
        assert(f == t);
        let k1: u8 = if cr & 1 != 0 { 1u8 } else { 0u8 };
        let k2: u8 = if cr & 2 != 0 { 2u8 } else { 0u8 };
        let k3: u8 = if cr & 4 != 0 { 4u8 } else { 0u8 };
        let k4: u8 = if cr & 8 != 0 { 8u8 } else { 0u8 };
        assert(t.contains('K') == (cr & 1 != 0));
        assert(t.contains('Q') == (cr & 2 != 0));
        assert(t.contains('k') == (cr & 4 != 0));
        assert(t.contains('q') == (cr & 8 != 0));
        assert((k1 | k2 | k3 | k4) == cr) by (bit_vector)
            requires
                cr < 16,
                k1 == (if cr & 1 != 0 { 1u8 } else { 0u8 }),
                k2 == (if cr & 2 != 0 { 2u8 } else { 0u8 }),
                k3 == (if cr & 4 != 0 { 4u8 } else { 0u8 }),
                k4 == (if cr & 8 != 0 { 8u8 } else { 0u8 }),
        ;
    }
}

/// The en passant field of a square on the board, or of none, reads back
/// as it.
pub proof fn lemma_ep_text(ep: Option<u8>)
    requires
        ep matches Some(e) ==> e < 64,
    ensures
        ep_text(ep).len() > 0,
        no_ws(ep_text(ep)),
        ep_field_ok(ep_text(ep)),
        ep_value(ep_text(ep)) == ep,
{
    let t = ep_text(ep);
    match ep {
        Some(e) => {
            let f = (e % 8) + 97;
            let r = (e / 8) + 49;
            assert(t[0] as u32 == f);
            assert(t[1] as u32 == r);
            assert(t != seq!['-']);
            assert((r - 49) * 8 + (f - 97) == e);
        },
        None => {},
    }
}

/// Where the placement reader stands after `s`, from row `row` and file
/// `file`: a slash starts the next row, a digit skips files, anything else
/// takes one file.
pub open spec fn read_state(s: Seq<char>, row: int, file: int) -> (int, int)
    decreases s.len(),
{
    if s.len() == 0 {
        (row, file)
    } else if s[0] == '/' {
        read_state(s.drop_first(), row + 1, 0)
    } else if is_digit(s[0]) {
        read_state(s.drop_first(), row, file + digit_value(s[0]))
    } else {
        read_state(s.drop_first(), row, file + 1)
    }
}

proof fn lemma_places_drop(s: Seq<char>, i: int, row: int, file: int, sq: int, c: int, k: int)
    requires
        0 <= i,
        s.len() > 0,
    ensures
        places(s, i + 1, row, file, sq, c, k) == places(s.drop_first(), i, row, file, sq, c, k),
    decreases s.len() - i,
{
    if i + 1 < s.len() {
        let t = s.drop_first();
        assert(t[i] == s[i + 1]);
        if s[i + 1] == '/' {
            lemma_places_drop(s, i + 1, row + 1, 0, sq, c, k);
        } else if is_digit(s[i + 1]) {
            lemma_places_drop(s, i + 1, row, file + digit_value(s[i + 1]), sq, c, k);
        } else {
            lemma_places_drop(s, i + 1, row, file + 1, sq, c, k);
        }
    }
}

proof fn lemma_placement_drop(s: Seq<char>, i: int, row: int, file: int)
    requires
        0 <= i,
        s.len() > 0,
    ensures
        placement_ok(s, i + 1, row, file) == placement_ok(s.drop_first(), i, row, file),
    decreases s.len() - i,
{
    if i + 1 < s.len() {
        let t = s.drop_first();
        assert(t[i] == s[i + 1]);
        if s[i + 1] == '/' {
            lemma_placement_drop(s, i + 1, row + 1, 0);
        } else if is_digit(s[i + 1]) {
            lemma_placement_drop(s, i + 1, row, file + digit_value(s[i + 1]));
        } else {
            lemma_placement_drop(s, i + 1, row, file + 1);
        }
    }
}

/// Reading two texts one after the other: what the first places, then what
/// the second places from where the first left the reader.
proof fn lemma_read_concat(a: Seq<char>, b: Seq<char>, row: int, file: int, sq: int, c: int, k: int)
    ensures
        places(a + b, 0, row, file, sq, c, k) == (places(a, 0, row, file, sq, c, k) || places(
            b,
            0,
            read_state(a, row, file).0,
            read_state(a, row, file).1,
            sq,
            c,
            k,
        )),
        placement_ok(a + b, 0, row, file) == (placement_ok(a, 0, row, file) && placement_ok(
            b,
            0,
            read_state(a, row, file).0,
            read_state(a, row, file).1,
        )),
        read_state(a + b, row, file) == read_state(b, read_state(a, row, file).0, read_state(a, row, file).1),
    decreases a.len(),
{
    let s = a + b;
    if a.len() == 0 {
        assert(s =~= b);
    } else {
        let t = a.drop_first();
        assert(s.drop_first() =~= t + b);
        assert(s[0] == a[0]);
        lemma_places_drop(s, 0, row + 1, 0, sq, c, k);
        lemma_places_drop(a, 0, row + 1, 0, sq, c, k);
        lemma_placement_drop(s, 0, row + 1, 0);
        lemma_placement_drop(a, 0, row + 1, 0);
        if is_digit(a[0]) {
            lemma_places_drop(s, 0, row, file + digit_value(a[0]), sq, c, k);
            lemma_places_drop(a, 0, row, file + digit_value(a[0]), sq, c, k);
            lemma_placement_drop(s, 0, row, file + digit_value(a[0]));
            lemma_placement_drop(a, 0, row, file + digit_value(a[0]));
        }
        lemma_places_drop(s, 0, row, file + 1, sq, c, k);
        lemma_places_drop(a, 0, row, file + 1, sq, c, k);
        lemma_placement_drop(s, 0, row, file + 1);
        lemma_placement_drop(a, 0, row, file + 1);
        if a[0] == '/' {
            lemma_read_concat(t, b, row + 1, 0, sq, c, k);
        } else if is_digit(a[0]) {
            lemma_read_concat(t, b, row, file + digit_value(a[0]), sq, c, k);
        } else {
            lemma_read_concat(t, b, row, file + 1, sq, c, k);
        }
    }
}

/// The square `sq` holds the piece of color `c` and kind `k`.
pub open spec fn holds_piece(m: Seq<Cell>, sq: int, c: int, k: int) -> bool {
    m[sq] == Some((c as u8, k as u8))
}

/// The letter written for a cell reads back as its color and kind.
proof fn lemma_letter_reads(x: Cell, c: int, k: int)
    requires
        cell_ok(x),
        x is Some,
        0 <= c < 2,
        0 <= k < 6,
    ensures
        fen_piece(piece_letter(cell_piece(x).unwrap().0, cell_piece(x).unwrap().1)) is Some,
        (fen_piece(piece_letter(cell_piece(x).unwrap().0, cell_piece(x).unwrap().1)) == Some((c, k))) == (x == Some(
            (c as u8, k as u8),
        )),
{
    let (a, b) = x.unwrap();
    assert(a < 2 && b < 6);
}

/// Reading the text of rank `r` from file `f` on (with `e` empty squares
/// just passed, the reader at file `f - e`): it reads, leaves the reader at
/// the rank's end, and places exactly the pieces of the rank from `f` on.
proof fn lemma_rank_reads(m: Seq<Cell>, r: int, f: int, e: int, sq: int, c: int, k: int)
    requires
        m.len() == 64,
        forall|s: int| 0 <= s < 64 ==> cell_ok(#[trigger] m[s]),
        0 <= r < 8,
        0 <= e <= f <= 8,
        0 <= c < 2,
        0 <= k < 6,
    ensures
        read_state(rank_text(m, r, f, e as nat), 7 - r, f - e) == (7 - r, 8int),
        placement_ok(rank_text(m, r, f, e as nat), 0, 7 - r, f - e),
        places(rank_text(m, r, f, e as nat), 0, 7 - r, f - e, sq, c, k) == (r * 8 + f <= sq < r * 8 + 8 && holds_piece(
            m,
            sq,
            c,
            k,
        )),
    decreases 8 - f,
{
    let t = rank_text(m, r, f, e as nat);
    let g = gap_text(e as nat);
    if e > 0 {
        assert(g == seq![digit_char(e as nat)]);
        assert(digit_value(digit_char(e as nat)) == e);
        assert(is_digit(digit_char(e as nat)));
        assert(g.drop_first() =~= Seq::<char>::empty());
        assert(read_state(g, 7 - r, f - e) == read_state(Seq::<char>::empty(), 7 - r, f));
        lemma_places_drop(g, 0, 7 - r, f, sq, c, k);
        lemma_placement_drop(g, 0, 7 - r, f);
    } else {
        assert(g =~= Seq::<char>::empty());
    }
    assert(read_state(g, 7 - r, f - e) == (7 - r, f));
    assert(!places(g, 0, 7 - r, f - e, sq, c, k));
    assert(placement_ok(g, 0, 7 - r, f - e));
    if f >= 8 {
        assert(t == g);
    } else {
        let x = m[r * 8 + f];
        match cell_piece(x) {
            Some((cc, pp)) => {
                let l = seq![piece_letter(cc, pp)];
                let rest = rank_text(m, r, f + 1, 0);
                assert(t == g + l + rest);
                lemma_letter_reads(x, c, k);
                assert(!is_digit(l[0]) && l[0] != '/') by {
                    assert(fen_piece(l[0]) is Some);
                }
                assert(l.drop_first() =~= Seq::<char>::empty());
                lemma_places_drop(l, 0, 7 - r, f + 1, sq, c, k);
                lemma_placement_drop(l, 0, 7 - r, f + 1);
                assert(read_state(l, 7 - r, f) == read_state(Seq::<char>::empty(), 7 - r, f + 1));
                assert(places(l, 0, 7 - r, f, sq, c, k) == (sq == r * 8 + f && holds_piece(m, sq, c, k)));
                assert(placement_ok(l, 0, 7 - r, f));
                lemma_read_concat(g, l, 7 - r, f - e, sq, c, k);
                lemma_read_concat(g + l, rest, 7 - r, f - e, sq, c, k);
                lemma_rank_reads(m, r, f + 1, 0, sq, c, k);
            },
            None => {
                assert(t == rank_text(m, r, f + 1, (e + 1) as nat));
                lemma_rank_reads(m, r, f + 1, e + 1, sq, c, k);
                assert(x is None);
                assert(sq == r * 8 + f ==> !holds_piece(m, sq, c, k));
            },
        }
    }
}

/// Reading the placement text of ranks `r` down to the first, from the
/// row of rank `r`: it reads, and places exactly the pieces of those ranks.
proof fn lemma_board_reads(m: Seq<Cell>, r: int, sq: int, c: int, k: int)
    requires
        m.len() == 64,
        forall|s: int| 0 <= s < 64 ==> cell_ok(#[trigger] m[s]),
        -1 <= r < 8,
        0 <= c < 2,
        0 <= k < 6,
    ensures
        placement_ok(board_text(m, r), 0, 7 - r, 0),
        places(board_text(m, r), 0, 7 - r, 0, sq, c, k) == (0 <= sq < (r + 1) * 8 && holds_piece(m, sq, c, k)),
    decreases r + 1,
{
    if r >= 0 {
        let rt = rank_text(m, r, 0, 0);
        let sep = rank_sep(r);
        let rest = board_text(m, r - 1);
        assert(board_text(m, r) == rt + sep + rest);
        lemma_rank_reads(m, r, 0, 0, sq, c, k);
        lemma_board_reads(m, r - 1, sq, c, k);
        if r != 0 {
            assert(sep == seq!['/']);
            assert(sep.drop_first() =~= Seq::<char>::empty());
            lemma_places_drop(sep, 0, 8 - r, 0, sq, c, k);
            lemma_placement_drop(sep, 0, 8 - r, 0);
            assert(read_state(sep, 7 - r, 8) == read_state(Seq::<char>::empty(), 8 - r, 0));
        } else {
            assert(sep =~= Seq::<char>::empty());
        }
        assert(!places(sep, 0, 7 - r, 8, sq, c, k));
        assert(placement_ok(sep, 0, 7 - r, 8));
        if r != 0 {
            assert(read_state(sep, 7 - r, 8) == (7 - (r - 1), 0int));
        } else {
            assert(rest =~= Seq::<char>::empty());
        }
        lemma_read_concat(rt, sep, 7 - r, 0, sq, c, k);
        lemma_read_concat(rt + sep, rest, 7 - r, 0, sq, c, k);
    }
}

proof fn lemma_rank_no_ws(m: Seq<Cell>, r: int, f: int, e: nat)
    ensures
        no_ws(rank_text(m, r, f, e)),
    decreases 8 - f,
{
    let g = gap_text(e);
    if e > 0 {
        lemma_decimal(e);
    }
    assert(no_ws(g));
    if 0 <= f < 8 {
        match cell_piece(m[r * 8 + f]) {
            Some((c, p)) => {
                lemma_rank_no_ws(m, r, f + 1, 0);
                let t = g + seq![piece_letter(c, p)] + rank_text(m, r, f + 1, 0);
                assert forall|i: int| 0 <= i < t.len() implies !is_ws(#[trigger] t[i]) by {
                    if i < g.len() {
                        assert(t[i] == g[i]);
                    } else if i == g.len() {
                        assert(t[i] == piece_letter(c, p));
                    } else {
                        assert(t[i] == rank_text(m, r, f + 1, 0)[i - g.len() - 1]);
                    }
                }
            },
            None => {
                lemma_rank_no_ws(m, r, f + 1, e + 1);
            },
        }
    }
}

proof fn lemma_board_no_ws(m: Seq<Cell>, r: int)
    ensures
        no_ws(board_text(m, r)),
    decreases r + 1,
{
    if r >= 0 {
        lemma_rank_no_ws(m, r, 0, 0);
        lemma_board_no_ws(m, r - 1);
        let a = rank_text(m, r, 0, 0);
        let b = rank_sep(r);
        let c = board_text(m, r - 1);
        let t = a + b + c;
        assert(t == board_text(m, r));
        assert forall|i: int| 0 <= i < t.len() implies !is_ws(#[trigger] t[i]) by {
            if i < a.len() {
                assert(t[i] == a[i]);
            } else if i < a.len() + b.len() {
                assert(t[i] == b[i - a.len()]);
            } else {
                assert(t[i] == c[i - a.len() - b.len()]);
            }
        }
    }
}

/// The six fields of a position's FEN: placement, side, castling, en
/// passant, and the two clocks.
pub open spec fn fen_fields(p: Position) -> Seq<Seq<char>> {
    seq![
        board_text(p.bitboards.mailbox@, 7),
        seq![if p.side_to_move == Color::White { 'w' } else { 'b' }],
        castling_text(p.castling_rights),
        ep_text(p.en_passant),
        decimal(p.halfmove_clock as nat),
        decimal(p.fullmove_count as nat),
    ]
}

/// A position's FEN splits into its six fields, and is not `startpos`.
proof fn lemma_fen_fields(p: Position)
    requires
        p.wf(),
        p.castling_rights < 16,
    ensures
        fields(fen_of(p)) == fen_fields(p),
        fen_of(p) != startpos_word(),
{
    let m = p.bitboards.mailbox@;
    let bt = board_text(m, 7);
    let side = seq![if p.side_to_move == Color::White { 'w' } else { 'b' }];
    let ct = castling_text(p.castling_rights);
    let et = ep_text(p.en_passant);
    let ht = decimal(p.halfmove_clock as nat);
    let ft = decimal(p.fullmove_count as nat);
    let f = fen_of(p);
    let r4 = ht + seq![' '] + ft;
    let r3 = et + seq![' '] + r4;
    let r2 = ct + seq![' '] + r3;
    let r1 = side + seq![' '] + r2;
    assert(f =~= bt + seq![' '] + r1);
    lemma_board_no_ws(m, 7);
    assert(bt == rank_text(m, 7, 0, 0) + rank_sep(7) + board_text(m, 6));
    assert(bt.len() > 0);
    assert(no_ws(side));
    lemma_castling_text(p.castling_rights);
    lemma_ep_text(p.en_passant);
    lemma_decimal(p.halfmove_clock as nat);
    lemma_decimal(p.fullmove_count as nat);
    lemma_fields_cons(bt, r1);
    lemma_fields_cons(side, r2);
    lemma_fields_cons(ct, r3);
    lemma_fields_cons(et, r4);
    lemma_fields_cons(ht, ft);
    lemma_fields_word(ft);
    assert(fields(f) =~= fen_fields(p));
    assert(f != startpos_word()) by {
        let w = startpos_word();
        assert(no_ws(w));
        lemma_fields_word(w);
    }
}

/// The placement written for a position reads back as its pieces.
proof fn lemma_placement_back(p: Position)
    requires
        p.wf(),
    ensures
        placement_ok(board_text(p.bitboards.mailbox@, 7), 0, 0, 0),
        forall|sq: int, c: int, k: int|
            0 <= sq < 64 && 0 <= c < 2 && 0 <= k < 6 ==> #[trigger] places(
                board_text(p.bitboards.mailbox@, 7),
                0,
                0,
                0,
                sq,
                c,
                k,
            ) == holds_piece(p.bitboards.mailbox@, sq, c, k),
{
    let m = p.bitboards.mailbox@;
    assert(p.view().mailbox == m);
    assert forall|sq: int, c: int, k: int|
        0 <= sq < 64 && 0 <= c < 2 && 0 <= k < 6 implies #[trigger] places(board_text(m, 7), 0, 0, 0, sq, c, k)
        == holds_piece(m, sq, c, k) by {
        lemma_board_reads(m, 7, sq, c, k);
    }
    lemma_board_reads(m, 7, 0, 0, 0);
}

/// With a king of each color, a position's FEN can be read.
proof fn lemma_fen_ok(p: Position)
    requires
        p.wf(),
        p.view().pieces[pidx(0, 5)] != 0,
        p.view().pieces[pidx(1, 5)] != 0,
        p.castling_rights < 16,
    ensures
        fen_ok(fen_of(p)),
{
    let v = p.view();
    let m = p.bitboards.mailbox@;
    assert(v.mailbox == m);
    let bt = board_text(m, 7);
    lemma_fen_fields(p);
    lemma_placement_back(p);
    lemma_castling_text(p.castling_rights);
    lemma_ep_text(p.en_passant);
    assert(exists|sq: int| 0 <= sq < 64 && #[trigger] places(bt, 0, 0, 0, sq, 0, 5)) by {
        lemma_zero_iff_empty(v.pieces[pidx(0, 5)]);
        let sq = choose|t: int| 0 <= t < 64 && #[trigger] bit(v.pieces[pidx(0, 5)], t);
        assert(bit(v.pieces[pidx(0, 5)], sq));
        assert(holds_piece(m, sq, 0, 5));
        assert(places(bt, 0, 0, 0, sq, 0, 5));
    }
    assert(exists|sq: int| 0 <= sq < 64 && #[trigger] places(bt, 0, 0, 0, sq, 1, 5)) by {
        lemma_zero_iff_empty(v.pieces[pidx(1, 5)]);
        let sq = choose|t: int| 0 <= t < 64 && #[trigger] bit(v.pieces[pidx(1, 5)], t);
        assert(bit(v.pieces[pidx(1, 5)], sq));
        assert(pidx(1, 5) / 6 == 1 && pidx(1, 5) % 6 == 5);
        assert(holds_piece(m, sq, 1, 5));
        assert(places(bt, 0, 0, 0, sq, 1, 5));
    }
    assert(has_kings(bt));
}

/// Boards read from the placement written for a position are its boards.
proof fn lemma_boards_back(p: Position, q: Position)
    requires
        p.wf(),
        p.castling_rights < 16,
        read_from_fields(fen_fields(p), q),
    ensures
        q.view() == p.view(),
{
    let v = p.view();
    let m = p.bitboards.mailbox@;
    assert(v.mailbox == m);
    lemma_placement_back(p);
    let bt = board_text(m, 7);
    assert(fen_fields(p)[0] == bt);
    let w = q.view();
    assert forall|i: int, sq: int| 0 <= i < 12 && 0 <= sq < 64 implies (#[trigger] bit(w.pieces[i], sq) <==> m[sq]
        == Some(((i / 6) as u8, (i % 6) as u8))) by {
        let c = i / 6;
        let k = i % 6;
        assert(pidx(c, k) == i);
        assert(places(bt, 0, 0, 0, sq, c, k) == holds_piece(m, sq, c, k));
    }
    assert(disjoint(w.pieces)) by {
        assert forall|i: int, j: int, sq: int|
            0 <= i < 12 && 0 <= j < 12 && i != j && #[trigger] bit(w.pieces[i], sq) implies !#[trigger] bit(
            w.pieces[j],
            sq,
        ) by {
            if bit(w.pieces[j], sq) {
                assert(0 <= sq < 64);
                assert(m[sq] == Some(((i / 6) as u8, (i % 6) as u8)));
                assert(m[sq] == Some(((j / 6) as u8, (j % 6) as u8)));
                assert(i == (i / 6) * 6 + i % 6);
                assert(j == (j / 6) * 6 + j % 6);
            }
        }
    }
    assert(q.bitboards.wf());
    assert forall|sq: int| 0 <= sq < 64 implies #[trigger] w.mailbox[sq] == m[sq] by {
        assert(cell_ok(w.mailbox[sq]));
        assert(cell_ok(m[sq]));
        match m[sq] {
            Some((a, b)) => {
                let i = a as int * 6 + b as int;
                assert(i / 6 == a as int && i % 6 == b as int);
                assert(bit(w.pieces[i], sq));
            },
            None => {
                match w.mailbox[sq] {
                    Some((a, b)) => {
                        let i = a as int * 6 + b as int;
                        assert(i / 6 == a as int && i % 6 == b as int);
                        assert(bit(w.pieces[i], sq));
                    },
                    None => {},
                }
            },
        }
    }
    assert(w.mailbox =~= v.mailbox);
    lemma_wf_determined(w, v);
}

/// Writing a position in FEN and reading the text back gives the position
/// again (its boards, side to move, castling rights, en passant square and
/// clocks), for a position whose boards agree, with a king of each color,
/// whose castling rights use only their four bits.
pub proof fn law_fen_round_trip(p: Position, q: Position)
    requires
        p.wf(),
        p.view().pieces[pidx(0, 5)] != 0,
        p.view().pieces[pidx(1, 5)] != 0,
        p.castling_rights < 16,
        fen_read(fen_of(p), q),
    ensures
        fen_ok(fen_of(p)),
        q.view() == p.view(),
        q.side_to_move == p.side_to_move,
        q.castling_rights == p.castling_rights,
        q.en_passant == p.en_passant,
        q.halfmove_clock == p.halfmove_clock,
        q.fullmove_count == p.fullmove_count,
{
    lemma_fen_fields(p);
    lemma_fen_ok(p);
    lemma_castling_text(p.castling_rights);
    lemma_ep_text(p.en_passant);
    lemma_parse_decimal(p.halfmove_clock);
    lemma_parse_decimal(p.fullmove_count);
    let fs = fields(fen_of(p));
    assert(read_from_fields(fs, q));
    lemma_boards_back(p, q);
    assert(fs[1] == fen_fields(p)[1]);
    if fs[1] == seq!['w'] {
        assert(fs[1][0] == 'w');
    }
    if p.side_to_move == Color::White {
        assert(fs[1] =~= seq!['w']);
    }
    assert(fs[1] == seq!['w'] <==> p.side_to_move == Color::White);
}

} // verus!

//! The Universal Chess Interface: reading labelled values out of a command
//! line, reading and writing moves in coordinate notation, and the thinking
//! time a `go` command grants.
use vstd::prelude::*;
use vstd::string::StringSliceAdditionalSpecFns;
use crate::types::{Color, Piece, Move};
use crate::position::Position;
use crate::movegen::{legal, promo_piece, lemma_pseudo_fits, lemma_pseudo_unique};
use crate::text::{
    chars_of, trim, find, fields, parse_i32, trim_chars, find_chars, slice_chars, chars_eq, split_fields, parse_i32_chars, string_from_chars,
};
use crate::eval::trunc_div;

verus! {

/// The character views of a list of strings.
pub open spec fn views(all: Seq<&str>) -> Seq<Seq<char>> {
    Seq::new(all.len(), |i: int| all[i]@)
}

/// Where the value that starts at `start` in `t` ends, looking at the first
/// `n` labels of `all`: at the first occurrence of another label, where that
/// lies after `start` and before the end found so far (the end of `t` to
/// begin with).
pub open spec fn value_end(t: Seq<char>, label: Seq<char>, all: Seq<Seq<char>>, start: int, n: int) -> int
    decreases n,
{
    if n <= 0 {
        t.len() as int
    } else {
        let e = value_end(t, label, all, start, n - 1);
        let other = all[n - 1];
        match find(t, other) {
            Some(idx) => if other != label && idx > start && idx < e {
                idx
            } else {
                e
            },
            None => e,
        }
    }
}

/// The value labelled `label` in `text`: in the trimmed text, what follows
/// the first occurrence of `label` up to the next other label of `all`,
/// trimmed; empty where `label` does not occur.
pub open spec fn labeled(text: Seq<char>, label: Seq<char>, all: Seq<Seq<char>>) -> Seq<char> {
    let t = trim(text);
    match find(t, label) {
        Some(start) => {
            let vs = start + label.len();
            trim(t.subrange(vs, value_end(t, label, all, vs, all.len() as int)))
        },
        None => Seq::empty(),
    }
}

/// The first field of the value labelled `label`, read as an `i32`;
/// `default` where there is none or it does not read.
pub open spec fn labeled_int(text: Seq<char>, label: Seq<char>, all: Seq<Seq<char>>, default: i32) -> i32 {
    let f = fields(labeled(text, label, all));
    if f.len() > 0 {
        match parse_i32(f[0]) {
            Some(v) => v,
            None => default,
        }
    } else {
        default
    }
}

proof fn lemma_value_end_bounds(t: Seq<char>, label: Seq<char>, all: Seq<Seq<char>>, start: int, n: int)
    requires
        0 <= start <= t.len(),
    ensures
        start <= value_end(t, label, all, start, n) <= t.len(),
    decreases n,
{
    if n > 0 {
        lemma_value_end_bounds(t, label, all, start, n - 1);
    }
}

/// The characters of the value labelled `label` in `text`.
fn labeled_chars(text: &str, label: &str, all: &[&str]) -> (r: Vec<char>)
    ensures
        r@ == labeled(text@, label@, views(all@)),
{
    let raw = chars_of(text);
    let t = trim_chars(&raw);
    let lab = chars_of(label);
    let ghost vs_all = views(all@);
    let tn = t.len();
    match find_chars(&t, &lab) {
        Some(start) => {
            proof {
                crate::text::lemma_find_from(t@, lab@, 0);
                assert(start + lab@.len() <= t@.len());
            }
            let vs = start + lab.len();
            let mut value_end_at: usize = t.len();
            let mut k: usize = 0;
            while k < all.len()
                invariant
                    k <= all@.len(),
                    vs <= t@.len(),
                    vs_all == views(all@),
                    value_end_at as int == value_end(t@, lab@, vs_all, vs as int, k as int),
                    vs <= value_end_at <= t@.len(),
                decreases all.len() - k,
            {
                let other = chars_of(all[k]);
                proof {
                    assert(other@ == vs_all[k as int]);
                }
                match find_chars(&t, &other) {
                    Some(idx) => {
                        if !chars_eq(&other, &lab) && idx > vs && idx < value_end_at {
                            value_end_at = idx;
                        }
                    },
                    None => {},
                }
                k = k + 1;
            }
            let v = slice_chars(&t, vs, value_end_at);
            trim_chars(&v)
        },
        None => Vec::new(),
    }
}

/// The value labelled `label` in `text`, up to the next other label of
/// `all`, trimmed; empty where `label` does not occur.
pub fn get_labeled(text: &str, label: &str, all: &[&str]) -> (r: String)
    ensures
        r@ == labeled(text@, label@, views(all@)),
{
    string_from_chars(labeled_chars(text, label, all))
}

/// The first field of the value labelled `label`, as an `i32`; `default`
/// where there is none or it does not read.
pub fn get_labeled_int(text: &str, label: &str, all: &[&str], default: i32) -> (r: i32)
    ensures
        r == labeled_int(text@, label@, views(all@), default),
{
    let val = labeled_chars(text, label, all);
    let f = split_fields(&val);
    if f.len() > 0 {
        match parse_i32_chars(&f[0]) {
            Some(v) => v,
            None => default,
        }
    } else {
        default
    }
}

/// The square coordinate notation names with a file byte and a rank byte.
pub open spec fn square_of(file: u8, rank: u8) -> int {
    (rank - 49) * 8 + (file - 97)
}

/// The promotion piece the fifth byte names: q, r, b or n.
pub open spec fn promotion_of(b: Seq<u8>) -> Option<Piece> {
    if b.len() > 4 {
        if b[4] == 113 {
            Some(Piece::Queen)
        } else if b[4] == 114 {
            Some(Piece::Rook)
        } else if b[4] == 98 {
            Some(Piece::Bishop)
        } else if b[4] == 110 {
            Some(Piece::Knight)
        } else {
            None
        }
    } else {
        None
    }
}

/// Reading the first four bytes as two squares stays within a byte.
pub open spec fn squares_fit(b: Seq<u8>) -> bool {
    b.len() >= 4 ==> {
        &&& b[0] >= 97
        &&& b[1] >= 49
        &&& b[2] >= 97
        &&& b[3] >= 49
        &&& square_of(b[0], b[1]) <= 255
        &&& square_of(b[2], b[3]) <= 255
    }
}

/// `mv` is the move the text `b` names: its squares and promotion.
pub open spec fn names(b: Seq<u8>, mv: Move) -> bool {
    &&& mv.from == square_of(b[0], b[1])
    &&& mv.to == square_of(b[2], b[3])
    &&& mv.promotion == promotion_of(b)
}

/// The legal move the coordinate text `s` names (from and to square, and
/// the promotion piece after them, if any); `None` for text shorter than
/// four bytes or where no legal move matches. The position is left as it
/// was.
pub fn parse_uci_move(pos: &mut Position, s: &str) -> (r: Option<Move>)
    requires
        old(pos).valid(),
        old(pos).halfmove_clock < u32::MAX,
        squares_fit(s.spec_bytes()),
    ensures
        s.spec_bytes().len() < 4 ==> r is None,
        s.spec_bytes().len() >= 4 ==> match r {
            Some(m) => legal(*old(pos), m) && names(s.spec_bytes(), m),
            None => forall|m: Move| legal(*old(pos), m) ==> !names(s.spec_bytes(), m),
        },
        final(pos).view() == old(pos).view(),
        final(pos).valid(),
        final(pos).side_to_move == old(pos).side_to_move,
        final(pos).castling_rights == old(pos).castling_rights,
        final(pos).en_passant == old(pos).en_passant,
        final(pos).halfmove_clock == old(pos).halfmove_clock,
        final(pos).zobrist_keys == old(pos).zobrist_keys,
        final(pos).fullmove_count == old(pos).fullmove_count,
{
    let bytes = s.as_bytes();
    if bytes.len() < 4 {
        return None;
    }
    let from = (bytes[1] - 49) * 8 + (bytes[0] - 97);
    let to = (bytes[3] - 49) * 8 + (bytes[2] - 97);
    let promo = if bytes.len() > 4 {
        match bytes[4] {
            113 => Some(Piece::Queen),
            114 => Some(Piece::Rook),
            98 => Some(Piece::Bishop),
            110 => Some(Piece::Knight),
            _ => None,
        }
    } else {
        None
    };
    let ghost b = s.spec_bytes();
    let ghost p0 = *pos;
    let moves = pos.get_legal_moves();
    let mut i: usize = 0;
    while i < moves.len()
        invariant
            i <= moves@.len(),
            b.len() >= 4,
            from == square_of(b[0], b[1]),
            to == square_of(b[2], b[3]),
            promo == promotion_of(b),
            forall|m: Move| #[trigger] moves@.contains(m) <==> legal(p0, m),
            forall|j: int| 0 <= j < i ==> !names(b, #[trigger] moves@[j]),
            b == s.spec_bytes(),
            p0 == *old(pos),
            pos.view() == p0.view(),
            pos.valid(),
            pos.side_to_move == p0.side_to_move,
            pos.castling_rights == p0.castling_rights,
            pos.en_passant == p0.en_passant,
            pos.halfmove_clock == p0.halfmove_clock,
            pos.zobrist_keys == p0.zobrist_keys,
            pos.fullmove_count == p0.fullmove_count,
        decreases moves.len() - i,
    {
        let m = moves[i];
        let same_promo = match (m.promotion, promo) {
            (Some(x), Some(y)) => x == y,
            (None, None) => true,
            _ => false,
        };
        if m.from == from && m.to == to && same_promo {
            proof {
                assert(moves@.contains(m));
                assert(m.promotion == promo);
                assert(names(b, m));
                assert(legal(p0, m));
            }
            return Some(m);
        }
        i = i + 1;
    }
    proof {
        assert forall|m: Move| legal(p0, m) implies !names(b, m) by {
            assert(moves@.contains(m));
            let j = choose|j: int| 0 <= j < moves@.len() && moves@[j] == m;
        }
    }
    None
}

/// The file letter of a square.
pub open spec fn file_char(sq: u8) -> char {
    ((sq % 8) + 97) as char
}

/// The rank digit of a square.
pub open spec fn rank_char(sq: u8) -> char {
    ((sq / 8) + 49) as char
}

/// The letter of a promotion piece: q, r, b, n (q for any other piece).
pub open spec fn promo_char(p: Piece) -> char {
    match p {
        Piece::Rook => 'r',
        Piece::Bishop => 'b',
        Piece::Knight => 'n',
        _ => 'q',
    }
}

/// A move in coordinate notation: its from and to squares, then its
/// promotion piece's letter, if any.
pub open spec fn uci_text(mv: Move) -> Seq<char> {
    let base = seq![file_char(mv.from), rank_char(mv.from), file_char(mv.to), rank_char(mv.to)];
    match mv.promotion {
        Some(p) => base.push(promo_char(p)),
        None => base,
    }
}

/// The letter of a file or rank offset from `base`.
fn offset_char(base: u8, n: u8) -> (c: char)
    requires
        base + n < 256,
    ensures
        c == ((base + n) as u8) as char,
{
    ((base + n) as u8) as char
}

/// `mv` in coordinate notation, such as `e2e4` or `e7e8q`.
pub fn move_to_uci(mv: Move) -> (r: String)
    ensures
        r@ == uci_text(mv),
{
    let mut v: Vec<char> = Vec::new();
    v.push(offset_char(97, mv.from % 8));
    v.push(offset_char(49, mv.from / 8));
    v.push(offset_char(97, mv.to % 8));
    v.push(offset_char(49, mv.to / 8));
    match mv.promotion {
        Some(p) => {
            let c = match p {
                Piece::Rook => 'r',
                Piece::Bishop => 'b',
                Piece::Knight => 'n',
                _ => 'q',
            };
            v.push(c);
        },
        None => {},
    }
    proof {
        assert(v@ =~= uci_text(mv));
    }
    string_from_chars(v)
}

/// The labels of a `go` command.
pub open spec fn go_labels() -> Seq<Seq<char>> {
    seq![
        seq!['g', 'o'],
        seq!['m', 'o', 'v', 'e', 't', 'i', 'm', 'e'],
        seq!['w', 't', 'i', 'm', 'e'],
        seq!['b', 't', 'i', 'm', 'e'],
        seq!['w', 'i', 'n', 'c'],
        seq!['b', 'i', 'n', 'c'],
        seq!['m', 'o', 'v', 'e', 's', 't', 'o', 'g', 'o'],
    ]
}

/// The clock and increment a `go` command gives the side to move (White
/// when `white`), each 0 where missing.
pub open spec fn clock_and_increment(cmd: Seq<char>, white: bool) -> (int, int) {
    let l = go_labels();
    if white {
        (labeled_int(cmd, l[2], l, 0) as int, labeled_int(cmd, l[4], l, 0) as int)
    } else {
        (labeled_int(cmd, l[3], l, 0) as int, labeled_int(cmd, l[5], l, 0) as int)
    }
}

/// A thirtieth of the clock plus the increment fits in an `i32`.
pub open spec fn budget_fits(cmd: Seq<char>, white: bool) -> bool {
    let (clock, inc) = clock_and_increment(cmd, white);
    find(cmd, go_labels()[1]) is Some || i32::MIN <= trunc_div(clock, 30) + inc <= i32::MAX
}

/// The milliseconds a `go` command grants the side to move: its
/// `movetime` (500 where unreadable) if it names one, else a thirtieth of
/// the side's clock plus its increment, at least 10.
pub open spec fn go_millis_spec(cmd: Seq<char>, white: bool) -> u64 {
    let l = go_labels();
    if find(cmd, l[1]) is Some {
        labeled_int(cmd, l[1], l, 500) as u64
    } else {
        let (clock, inc) = clock_and_increment(cmd, white);
        let t = trunc_div(clock, 30) + inc;
        (if t > 10 {
            t
        } else {
            10
        }) as u64
    }
}

/// The milliseconds the `go` command `cmd` grants the side to move.
pub fn go_millis(cmd: &str, side: Color) -> (r: u64)
    requires
        budget_fits(cmd@, side == Color::White),
    ensures
        r == go_millis_spec(cmd@, side == Color::White),
{
    let labels: [&str; 7] = ["go", "movetime", "wtime", "btime", "winc", "binc", "movestogo"];
    proof {
        reveal_strlit("go");
        reveal_strlit("movetime");
        reveal_strlit("wtime");
        reveal_strlit("btime");
        reveal_strlit("winc");
        reveal_strlit("binc");
        reveal_strlit("movestogo");
        assert(labels@.len() == 7);
        assert(labels@[0]@ == go_labels()[0]);
        assert(labels@[1]@ == go_labels()[1]);
        assert(labels@[2]@ == go_labels()[2]);
        assert(labels@[3]@ == go_labels()[3]);
        assert(labels@[4]@ == go_labels()[4]);
        assert(labels@[5]@ == go_labels()[5]);
        assert(labels@[6]@ == go_labels()[6]);
        assert(views(labels@) =~= go_labels());
    }
    let cmd_chars = chars_of(cmd);
    let movetime = chars_of("movetime");
    if find_chars(&cmd_chars, &movetime).is_some() {
        let ms = get_labeled_int(cmd, "movetime", &labels, 500);
        return #[verifier::truncate] (ms as u64);
    }
    let white = match side {
        Color::White => true,
        Color::Black => false,
    };
    let clock = if white {
        get_labeled_int(cmd, "wtime", &labels, 0)
    } else {
        get_labeled_int(cmd, "btime", &labels, 0)
    };
    let inc = if white {
        get_labeled_int(cmd, "winc", &labels, 0)
    } else {
        get_labeled_int(cmd, "binc", &labels, 0)
    };
    let c = clock as i64;
    let share: i64 = if c >= 0 {
        c / 30
    } else {
        -((-c) / 30)
    };
    let t = share + inc as i64;
    let t = if t > 10 {
        t
    } else {
        10
    };
    t as u64
}

/// The labels of a `position` command.
pub open spec fn position_labels() -> Seq<Seq<char>> {
    seq![seq!['p', 'o', 's', 'i', 't', 'i', 'o', 'n'], seq!['f', 'e', 'n'], seq!['m', 'o', 'v', 'e', 's']]
}

/// `str::to_lowercase`: the lower-case mapping of `s` by Unicode's rules
/// (a character may map to several).
pub uninterp spec fn lowercase(s: Seq<char>) -> Seq<char>;

/// `str::to_lowercase`: the characters of the lower-case form of `s`.
#[verifier::external_body]
fn lowercase_chars(s: &str) -> (r: Vec<char>)
    ensures
        r@ == lowercase(s@),
{
    s.to_lowercase().chars().collect()
}

/// Where a `position` command starts from.
pub enum PositionBase {
    /// The starting position.
    Start,
    /// The position of this FEN text.
    Fen(String),
    /// The game as it stands.
    Unchanged,
}

/// Where the `position` command `cmd` starts from: the starting position
/// when its lower-case form mentions `startpos`, else the FEN text labelled
/// `fen` when it mentions `fen`, else the game as it stands.
pub fn position_base(cmd: &str) -> (r: PositionBase)
    ensures
        find(lowercase(cmd@), "startpos"@) is Some ==> r is Start,
        find(lowercase(cmd@), "startpos"@) is None && find(lowercase(cmd@), "fen"@) is Some ==> (r matches PositionBase::Fen(f)
            && f@ == labeled(cmd@, "fen"@, position_labels())),
        find(lowercase(cmd@), "startpos"@) is None && find(lowercase(cmd@), "fen"@) is None ==> r is Unchanged,
{
    let labels: [&str; 3] = ["position", "fen", "moves"];
    proof {
        reveal_strlit("position");
        reveal_strlit("fen");
        reveal_strlit("moves");
        assert(labels@.len() == 3);
        assert(labels@[0]@ == position_labels()[0]);
        assert(labels@[1]@ == position_labels()[1]);
        assert(labels@[2]@ == position_labels()[2]);
        assert(views(labels@) =~= position_labels());
    }
    let lower = lowercase_chars(cmd);
    let startpos = chars_of("startpos");
    if find_chars(&lower, &startpos).is_some() {
        return PositionBase::Start;
    }
    let fen_word = chars_of("fen");
    if find_chars(&lower, &fen_word).is_some() {
        return PositionBase::Fen(get_labeled(cmd, "fen", &labels));
    }
    PositionBase::Unchanged
}

/// The move texts of the `position` command `cmd`: the fields of the value
/// labelled `moves`.
pub fn position_moves(cmd: &str) -> (r: Vec<String>)
    ensures
        r@.len() == fields(labeled(cmd@, "moves"@, position_labels())).len(),
        forall|i: int| 0 <= i < r@.len() ==> #[trigger] r@[i]@ == fields(labeled(cmd@, "moves"@, position_labels()))[i],
{
    let labels: [&str; 3] = ["position", "fen", "moves"];
    proof {
        reveal_strlit("position");
        reveal_strlit("fen");
        reveal_strlit("moves");
        assert(labels@.len() == 3);
        assert(labels@[0]@ == position_labels()[0]);
        assert(labels@[1]@ == position_labels()[1]);
        assert(labels@[2]@ == position_labels()[2]);
        assert(views(labels@) =~= position_labels());
    }
    let value = labeled_chars(cmd, "moves", &labels);
    let parts = split_fields(&value);
    let mut out: Vec<String> = Vec::new();
    let mut i: usize = 0;
    while i < parts.len()
        invariant
            i <= parts@.len(),
            out@.len() == i,
            parts@.len() == fields(value@).len(),
            forall|k: int| 0 <= k < parts@.len() ==> #[trigger] parts@[k]@ == fields(value@)[k],
            forall|k: int| 0 <= k < i ==> #[trigger] out@[k]@ == fields(value@)[k],
        decreases parts.len() - i,
    {
        let t = slice_chars(&parts[i], 0, parts[i].len());
        proof {
            assert(t@ =~= parts@[i as int]@);
        }
        out.push(string_from_chars(t));
        i = i + 1;
    }
    out
}

/// Whether reading the squares of the move text `s` stays within a byte.
pub fn move_text_fits(s: &str) -> (r: bool)
    ensures
        r == squares_fit(s.spec_bytes()),
{
    let b = s.as_bytes();
    if b.len() < 4 {
        return true;
    }
    let b0 = b[0] as u32;
    let b1 = b[1] as u32;
    let b2 = b[2] as u32;
    let b3 = b[3] as u32;
    b0 >= 97 && b1 >= 49 && b2 >= 97 && b3 >= 49 && (b1 - 49) * 8 + (b0 - 97) <= 255 && (b3 - 49) * 8 + (b2
        - 97) <= 255
}

/// A legal move written in coordinate notation reads back as that move:
/// the text's squares fit in a byte, it names the move, and no other legal
/// move of the position has its squares and promotion piece.
pub proof fn law_uci_round_trip(p: Position, m: Move, s: &str)
    requires
        p.valid(),
        legal(p, m),
        s@ == uci_text(m),
    ensures
        s.spec_bytes().len() >= 4,
        squares_fit(s.spec_bytes()),
        names(s.spec_bytes(), m),
        forall|m2: Move| legal(p, m2) && names(s.spec_bytes(), m2) ==> m2 == m,
{
    lemma_pseudo_fits(p, m);
    let t = uci_text(m);
    assert(m.promotion matches Some(k) ==> promo_piece(m.promotion));
    assert(vstd::string::is_ascii(s)) by {
        assert forall|i: int| 0 <= i < t.len() implies '\0' <= #[trigger] t[i] <= '\u{7f}' by {
            if i == 4 {
                assert(m.promotion is Some);
            }
        }
    }
    vstd::string::is_ascii_spec_bytes(s);
    let b = s.spec_bytes();
    assert(b =~= Seq::new(t.len(), |i: int| t[i] as u8));
    assert(b[0] == (m.from % 8) + 97);
    assert(b[1] == (m.from / 8) + 49);
    assert(b[2] == (m.to % 8) + 97);
    assert(b[3] == (m.to / 8) + 49);
    assert(square_of(b[0], b[1]) == m.from);
    assert(square_of(b[2], b[3]) == m.to);
    match m.promotion {
        Some(k) => {
            assert(b.len() == 5);
            assert(b[4] == promo_char(k) as u8);
        },
        None => {
            assert(b.len() == 4);
        },
    }
    assert(promotion_of(b) == m.promotion);
    assert forall|m2: Move| legal(p, m2) && names(b, m2) implies m2 == m by {
        lemma_pseudo_unique(p, m, m2);
    }
}

} // verus!

//! The terminal game: who controls each side, and reading a move a player
//! types in coordinate notation against the board (its flag worked out from
//! the pieces, without checking that it is legal).
use vstd::prelude::*;
use vstd::string::StringSliceAdditionalSpecFns;
use crate::types::{Color, Piece, MoveFlag, Move, GameResult, lemma_color_index, lemma_piece_index};
use crate::movegen::{pseudo_legal, pawn_push, pawn_double, pawn_capture, pawn_ep, piece_move, castle_move, lemma_pseudo_fits};
use crate::bitboards::pidx;
use crate::position::{Position, cell_piece, attacked, king_square};
use crate::game::GameState;
use crate::bot::Bot;
use crate::fen::{piece_letter, letter_of};
use crate::text::{push_str, string_from_chars, digit_char};

verus! {

broadcast use lemma_color_index, lemma_piece_index;

/// A file letter a to h.
pub open spec fn file_byte_ok(x: u8) -> bool {
    97 <= x <= 104
}

/// A rank digit 1 to 8.
pub open spec fn rank_byte_ok(x: u8) -> bool {
    49 <= x <= 56
}

/// The text opens with a from and a to square.
pub open spec fn coords_ok(b: Seq<u8>) -> bool {
    &&& b.len() >= 4
    &&& file_byte_ok(b[0])
    &&& rank_byte_ok(b[1])
    &&& file_byte_ok(b[2])
    &&& rank_byte_ok(b[3])
}

/// The promotion piece a byte names: q, r, b or n.
pub open spec fn promo_byte(x: u8) -> Option<Piece> {
    if x == 113 {
        Some(Piece::Queen)
    } else if x == 114 {
        Some(Piece::Rook)
    } else if x == 98 {
        Some(Piece::Bishop)
    } else if x == 110 {
        Some(Piece::Knight)
    } else {
        None
    }
}

/// The flag of a move of the piece `k` of color `c` from `from` to `to` (on
/// ranks `rf`, `rt` and to file `ft`): a pawn reaching the last rank
/// promotes (capturing when the target is occupied), else takes en passant
/// on the en passant square, else pushes two ranks forward, else captures
/// on an occupied target; a king moving two squares castles (king side
/// towards the g file, else queen side), else captures on an occupied
/// target; any other piece captures on an occupied target; otherwise the
/// move is quiet.
pub open spec fn flag_for(p: Position, c: Color, k: Piece, from: int, to: int, rf: int, rt: int, ft: int) -> MoveFlag {
    let target = cell_piece(p.bitboards.mailbox@[to]) is Some;
    match k {
        Piece::Pawn => {
            let diff = if c == Color::White {
                rt - rf
            } else {
                rf - rt
            };
            if (c == Color::White && rt == 7) || (c == Color::Black && rt == 0) {
                if target {
                    MoveFlag::PromotionCapture
                } else {
                    MoveFlag::Promotion
                }
            } else if p.en_passant == Some(to as u8) {
                MoveFlag::EnPassant
            } else if diff == 2 {
                MoveFlag::DoublePawnPush
            } else if target {
                MoveFlag::Capture
            } else {
                MoveFlag::Quiet
            }
        },
        Piece::King => {
            if from - to == 2 || to - from == 2 {
                if ft == 6 {
                    MoveFlag::KingCastle
                } else {
                    MoveFlag::QueenCastle
                }
            } else if target {
                MoveFlag::Capture
            } else {
                MoveFlag::Quiet
            }
        },
        _ => {
            if target {
                MoveFlag::Capture
            } else {
                MoveFlag::Quiet
            }
        },
    }
}

/// The move the text `b` describes on `p`: two squares on the board, a
/// piece of the side to move on the first, and, when the text has exactly
/// five bytes, a promotion letter; `None` otherwise.
pub open spec fn text_move(p: Position, b: Seq<u8>) -> Option<Move> {
    if !coords_ok(b) {
        None
    } else {
        let ff = b[0] - 97;
        let rf = b[1] - 49;
        let ft = b[2] - 97;
        let rt = b[3] - 49;
        let from = rf * 8 + ff;
        let to = rt * 8 + ft;
        match cell_piece(p.bitboards.mailbox@[from]) {
            None => None,
            Some((c, k)) => {
                if c != p.side_to_move {
                    None
                } else if b.len() == 5 && promo_byte(b[4]) is None {
                    None
                } else {
                    Some(
                        Move {
                            from: from as u8,
                            to: to as u8,
                            promotion: if b.len() == 5 {
                                promo_byte(b[4])
                            } else {
                                None
                            },
                            flag: flag_for(p, c, k, from, to, rf, rt, ft),
                        },
                    )
                }
            },
        }
    }
}

/// The letter that names a promotion piece: q, r, b or n.
pub open spec fn promo_letter(k: Piece) -> u8 {
    match k {
        Piece::Queen => 113,
        Piece::Rook => 114,
        Piece::Bishop => 98,
        _ => 110,
    }
}

/// A move written in coordinate notation, as bytes: the from square's file
/// letter and rank digit, the to square's, then the promotion letter if
/// any.
pub open spec fn move_bytes(m: Move) -> Seq<u8> {
    let base = seq![
        (97 + m.from % 8) as u8,
        (49 + m.from / 8) as u8,
        (97 + m.to % 8) as u8,
        (49 + m.to / 8) as u8,
    ];
    match m.promotion {
        Some(k) => base.push(promo_letter(k)),
        None => base,
    }
}

/// Typing any pseudo-legal move of a valid position (any legal move among
/// them) in coordinate notation reads back exactly that move, for either
/// side to move: its squares, its promotion and its flag.
pub proof fn law_typed_move(p: Position, m: Move)
    requires
        p.valid(),
        pseudo_legal(p, m),
    ensures
        text_move(p, move_bytes(m)) == Some(m),
{
    lemma_pseudo_fits(p, m);
    let v = p.view();
    let c = p.side_to_move.index();
    let b = move_bytes(m);
    let from = m.from as int;
    let to = m.to as int;
    assert(b[0] == 97 + from % 8 && b[1] == 49 + from / 8 && b[2] == 97 + to % 8 && b[3] == 49 + to / 8);
    assert(coords_ok(b));
    let rf = from / 8;
    let rt = to / 8;
    let ft = to % 8;
    assert(rf * 8 + from % 8 == from);
    assert(rt * 8 + to % 8 == to);
    assert(p.bitboards.mailbox@ == v.mailbox);
    let n = crate::movegen::node_of(p);
    assert(n.v == v && n.c == c);
    if m.promotion is Some {
        let k = m.promotion.unwrap();
        assert(b.len() == 5 && b[4] == promo_letter(k));
    } else {
        assert(b.len() == 4);
    }
    if pawn_push(v, c, m) || pawn_double(v, c, m) || pawn_capture(v, c, m) || pawn_ep(v, c, p.en_passant, m) {
        assert(cell_piece(v.mailbox[from]) == Some((p.side_to_move, Piece::Pawn)));
        if m.promotion is Some {
            assert(m.promotion == Some(Piece::Queen) || m.promotion == Some(Piece::Rook) || m.promotion == Some(Piece::Bishop)
                || m.promotion == Some(Piece::Knight));
        }
        if let Some(e) = p.en_passant {
            if e as int == to {
                assert(is_empty_at(v, to));
            }
        }
        assert(flag_for(p, p.side_to_move, Piece::Pawn, from, to, rf, rt, ft) == m.flag);
    } else if castle_move(v, c, p.castling_rights, m) {
        let cr = p.castling_rights;
        assert(((cr & 1u8 != 0 || cr & 2u8 != 0) ==> cr & 3u8 != 0) && ((cr & 4u8 != 0 || cr & 8u8 != 0) ==> cr & 12u8 != 0))
            by (bit_vector);
        assert(crate::movegen::castle_ok(p));
        assert(cell_piece(v.mailbox[from]) == Some((p.side_to_move, Piece::King)));
        assert(flag_for(p, p.side_to_move, Piece::King, from, to, rf, rt, ft) == m.flag);
    } else {
        let k = choose|k: int| 1 <= k <= 5 && piece_move(v, c, k, m);
        assert(cell_piece(v.mailbox[from]) == Some((p.side_to_move, Piece::from_index(k))));
        assert(flag_for(p, p.side_to_move, Piece::from_index(k), from, to, rf, rt, ft) == m.flag);
    }
}

/// A typed move that reads as a move names a piece of the side to move on
/// its from square, and writing that move back gives the text typed (its
/// first four bytes, with the promotion letter when there are five).
pub proof fn law_typed_move_text(p: Position, b: Seq<u8>)
    ensures
        text_move(p, b) matches Some(m) ==> {
            &&& cell_piece(p.bitboards.mailbox@[m.from as int]) matches Some((c, _)) && c == p.side_to_move
            &&& move_bytes(m) == (if b.len() == 5 { b } else { b.take(4) })
        },
{
    if let Some(m) = text_move(p, b) {
        let ff = b[0] - 97;
        let rf = b[1] - 49;
        let ft = b[2] - 97;
        let rt = b[3] - 49;
        assert(0 <= ff < 8 && 0 <= rf < 8 && 0 <= ft < 8 && 0 <= rt < 8);
        let from = rf * 8 + ff;
        let to = rt * 8 + ft;
        vstd::arithmetic::div_mod::lemma_fundamental_div_mod_converse(from, 8, rf, ff);
        vstd::arithmetic::div_mod::lemma_fundamental_div_mod_converse(to, 8, rt, ft);
        assert(m.from as int == from && m.to as int == to);
        let mb = move_bytes(m);
        if b.len() == 5 {
            let k = promo_byte(b[4]).unwrap();
            assert(promo_letter(k) == b[4]);
            assert(mb =~= b);
        } else {
            assert(mb =~= b.take(4));
        }
    }
}

/// Whether square `s` of `v` is empty.
pub open spec fn is_empty_at(v: crate::bitboards::BoardView, s: int) -> bool {
    v.mailbox[s] is None
}

/// The move the coordinate text `input` describes in the game's position
/// (see `text_move`); it is not checked for legality.
pub fn parse_uci(input: &str, gs: &GameState) -> (r: Option<Move>)
    ensures
        r == text_move(gs.position, input.spec_bytes()),
{
    parse_move_text(&gs.position, input)
}

/// The move the coordinate text `input` describes in `pos`.
pub fn parse_move_text(pos: &Position, input: &str) -> (r: Option<Move>)
    ensures
        r == text_move(*pos, input.spec_bytes()),
{
    let bytes = input.as_bytes();
    if bytes.len() < 4 {
        return None;
    }
    let b0 = bytes[0];
    let b1 = bytes[1];
    let b2 = bytes[2];
    let b3 = bytes[3];
    if !(97 <= b0 && b0 <= 104 && 49 <= b1 && b1 <= 56 && 97 <= b2 && b2 <= 104 && 49 <= b3 && b3 <= 56) {
        return None;
    }
    let file_from = b0 - 97;
    let rank_from = b1 - 49;
    let file_to = b2 - 97;
    let rank_to = b3 - 49;
    let from = rank_from * 8 + file_from;
    let to = rank_to * 8 + file_to;
    let (color, piece) = match pos.piece_on(from) {
        Some(cp) => cp,
        None => {
            return None;
        },
    };
    if color != pos.side_to_move {
        return None;
    }
    let target = pos.piece_on(to).is_some();
    let promotion = if bytes.len() == 5 {
        match bytes[4] {
            113 => Some(Piece::Queen),
            114 => Some(Piece::Rook),
            98 => Some(Piece::Bishop),
            110 => Some(Piece::Knight),
            _ => {
                return None;
            },
        }
    } else {
        None
    };
    let white = match color {
        Color::White => true,
        Color::Black => false,
    };
    let flag = match piece {
        Piece::Pawn => {
            let rank_diff: i8 = if white {
                rank_to as i8 - rank_from as i8
            } else {
                rank_from as i8 - rank_to as i8
            };
            let ep_here = match pos.en_passant {
                Some(e) => e == to,
                None => false,
            };
            if (white && rank_to == 7) || (!white && rank_to == 0) {
                if target {
                    MoveFlag::PromotionCapture
                } else {
                    MoveFlag::Promotion
                }
            } else if ep_here {
                MoveFlag::EnPassant
            } else if rank_diff == 2 {
                MoveFlag::DoublePawnPush
            } else if target {
                MoveFlag::Capture
            } else {
                MoveFlag::Quiet
            }
        },
        Piece::King => {
            let d: i8 = from as i8 - to as i8;
            if d == 2 || d == -2 {
                if file_to == 6 {
                    MoveFlag::KingCastle
                } else {
                    MoveFlag::QueenCastle
                }
            } else if target {
                MoveFlag::Capture
            } else {
                MoveFlag::Quiet
            }
        },
        _ => {
            if target {
                MoveFlag::Capture
            } else {
                MoveFlag::Quiet
            }
        },
    };
    Some(Move { from, to, promotion, flag })
}

/// Who moves for one side: a person at the terminal or a bot.
pub enum Controller {
    Human,
    Bot(Bot),
}

impl Controller {
    /// Whether a bot moves for this side.
    pub fn is_bot(&self) -> (r: bool)
        ensures
            r == (self is Bot),
    {
        match self {
            Controller::Bot(_) => true,
            Controller::Human => false,
        }
    }
}

/// Who moves for White and who for Black.
pub struct GameConfig {
    pub white: Controller,
    pub black: Controller,
}

impl GameConfig {
    /// The controller of `color`'s side, to act through.
    pub fn for_color(&mut self, color: Color) -> (r: &mut Controller)
        ensures
            color == Color::White ==> *r == old(self).white,
            color == Color::White ==> final(self).white == *final(r),
            color == Color::White ==> final(self).black == old(self).black,
            color == Color::Black ==> *r == old(self).black,
            color == Color::Black ==> final(self).black == *final(r),
            color == Color::Black ==> final(self).white == old(self).white,
    {
        match color {
            Color::White => &mut self.white,
            Color::Black => &mut self.black,
        }
    }

    /// Whether a bot moves for `color`.
    pub fn is_bot(&self, color: Color) -> (r: bool)
        ensures
            r == (if color == Color::White {
                self.white is Bot
            } else {
                self.black is Bot
            }),
    {
        match color {
            Color::White => self.white.is_bot(),
            Color::Black => self.black.is_bot(),
        }
    }
}

/// The square of color `c`'s king as the display finds it: the lowest
/// square of its board, if any.
pub open spec fn display_king(p: Position, c: int) -> Option<int> {
    if p.view().pieces[pidx(c, 5)] != 0 {
        Some(king_square(p.view(), c))
    } else {
        None
    }
}

/// A square of the board display: its piece's letter between spaces (in
/// white on red for a king in check), or a dot.
pub open spec fn cell_display(p: Position, wc: bool, bc: bool, sq: int) -> Seq<char> {
    match cell_piece(p.bitboards.mailbox@[sq]) {
        Some((c, k)) => {
            let lit = if c == Color::White {
                wc && display_king(p, 0) == Some(sq)
            } else {
                bc && display_king(p, 1) == Some(sq)
            };
            if lit {
                " \x1b[41m\x1b[97m"@ + seq![piece_letter(c, k)] + "\x1b[0m "@
            } else {
                seq![' ', piece_letter(c, k), ' ']
            }
        },
        None => seq![' ', '.', ' '],
    }
}

/// The squares of rank `rank` from file `file` on.
pub open spec fn row_cells(p: Position, wc: bool, bc: bool, rank: int, file: int) -> Seq<char>
    decreases 8 - file,
{
    if file < 0 || file >= 8 {
        Seq::empty()
    } else {
        cell_display(p, wc, bc, rank * 8 + file) + row_cells(p, wc, bc, rank, file + 1)
    }
}

/// The board's lines from rank `rank` down to the first, each with its
/// number.
pub open spec fn rows_display(p: Position, wc: bool, bc: bool, rank: int) -> Seq<char>
    decreases rank + 1,
{
    if rank < 0 {
        Seq::empty()
    } else {
        seq![digit_char((rank + 1) as nat), ' ', '|'] + row_cells(p, wc, bc, rank, 0) + seq!['|', '\n'] + rows_display(
            p,
            wc,
            bc,
            rank - 1,
        )
    }
}

/// A color's name.
pub open spec fn color_name(c: Color) -> Seq<char> {
    if c == Color::White {
        "White"@
    } else {
        "Black"@
    }
}

/// A result as it is printed.
pub open spec fn result_text(r: GameResult) -> Seq<char> {
    match r {
        GameResult::Ongoing => "Ongoing"@,
        GameResult::Checkmate(c) => "Checkmate("@ + color_name(c) + ")"@,
        GameResult::Stalemate => "Stalemate"@,
        GameResult::DrawRepetition => "DrawRepetition"@,
        GameResult::DrawFiftyMove => "DrawFiftyMove"@,
        GameResult::DrawInsufficientMaterial => "DrawInsufficientMaterial"@,
    }
}

/// The castling rights as K, Q, k, q, each `-` when not held.
pub open spec fn castling_display(cr: u8) -> Seq<char> {
    seq![
        if cr & 1 != 0 { 'K' } else { '-' },
        if cr & 2 != 0 { 'Q' } else { '-' },
        if cr & 4 != 0 { 'k' } else { '-' },
        if cr & 8 != 0 { 'q' } else { '-' },
    ]
}

/// The en passant square's name, or `-`.
pub open spec fn ep_display(ep: Option<u8>) -> Seq<char> {
    match ep {
        Some(e) => seq![((e % 8) + 97) as char, ((e / 8) + 49) as char],
        None => "-"@,
    }
}

/// What the display shows below the board: the file letters, then the
/// side to move, the castling rights, the en passant square and the result.
pub open spec fn status_display(g: GameState) -> Seq<char> {
    let p = g.position;
    "  +------------------------+\n"@ + "    a  b  c  d  e  f  g  h\n\n"@ + "Side to move: "@ + color_name(p.side_to_move)
        + "\n"@ + "Castling: "@ + castling_display(p.castling_rights) + "\n"@ + "En passant: "@ + ep_display(
        p.en_passant,
    ) + "\n"@ + "Game result: "@ + result_text(g.result) + "\n"@
}

/// The game as the terminal shows it (`wc` and `bc` say whether White's and
/// Black's king is in check): the board framed, rank 8 first, with the
/// file letters below, then the side to move, the castling rights, the en
/// passant square and the result.
pub open spec fn game_display(g: GameState, wc: bool, bc: bool) -> Seq<char> {
    "  +------------------------+\n"@ + rows_display(g.position, wc, bc, 7) + status_display(g)
}

/// The character of a digit.
fn digit_of(d: u8) -> (c: char)
    requires
        d < 10,
    ensures
        c == digit_char(d as nat),
{
    ((48 + d) as u8) as char
}

/// Appends one square of the display.
fn push_cell(out: &mut Vec<char>, p: &Position, wc: bool, bc: bool, wk: Option<u8>, bk: Option<u8>, sq: u8)
    requires
        sq < 64,
        wk == (match display_king(*p, 0) {
            Some(k) => Some(k as u8),
            None => None::<u8>,
        }),
        bk == (match display_king(*p, 1) {
            Some(k) => Some(k as u8),
            None => None::<u8>,
        }),
        display_king(*p, 0) matches Some(k) ==> 0 <= k < 64,
        display_king(*p, 1) matches Some(k) ==> 0 <= k < 64,
    ensures
        final(out)@ == old(out)@ + cell_display(*p, wc, bc, sq as int),
{
    match p.piece_on(sq) {
        Some((color, piece)) => {
            let lit = match color {
                Color::White => wc && match wk {
                    Some(k) => k == sq,
                    None => false,
                },
                Color::Black => bc && match bk {
                    Some(k) => k == sq,
                    None => false,
                },
            };
            let ch = letter_of(color, piece);
            if lit {
                push_str(out, " \x1b[41m\x1b[97m");
                out.push(ch);
                push_str(out, "\x1b[0m ");
            } else {
                out.push(' ');
                out.push(ch);
                out.push(' ');
            }
            proof {
                assert(final(out)@ =~= old(out)@ + cell_display(*p, wc, bc, sq as int));
            }
        },
        None => {
            out.push(' ');
            out.push('.');
            out.push(' ');
            proof {
                assert(final(out)@ =~= old(out)@ + cell_display(*p, wc, bc, sq as int));
            }
        },
    }
}

/// The square of a color's king as the display finds it.
fn king_of(p: &Position, c: usize) -> (r: Option<u8>)
    requires
        c < 2,
        p.wf(),
    ensures
        r == (match display_king(*p, c as int) {
            Some(k) => Some(k as u8),
            None => None::<u8>,
        }),
        display_king(*p, c as int) matches Some(k) ==> 0 <= k < 64,
{
    let b = p.bitboards.pieces[c][5];
    proof {
        crate::bitboards::lemma_view_index(p.bitboards, c as int, 5);
    }
    if b != 0 {
        Some(crate::bits::lowest_square(b))
    } else {
        None
    }
}

/// Appends one rank of the display.
fn push_row(out: &mut Vec<char>, pos: &Position, wc: bool, bc: bool, wk: Option<u8>, bk: Option<u8>, rank: u8)
    requires
        rank < 8,
        wk == (match display_king(*pos, 0) {
            Some(k) => Some(k as u8),
            None => None::<u8>,
        }),
        bk == (match display_king(*pos, 1) {
            Some(k) => Some(k as u8),
            None => None::<u8>,
        }),
        display_king(*pos, 0) matches Some(k) ==> 0 <= k < 64,
        display_king(*pos, 1) matches Some(k) ==> 0 <= k < 64,
    ensures
        final(out)@ == old(out)@ + seq![digit_char((rank + 1) as nat), ' ', '|'] + row_cells(*pos, wc, bc, rank as int, 0)
            + seq!['|', '\n'],
{
    let ghost p = *pos;
    out.push(digit_of(rank + 1));
    out.push(' ');
    out.push('|');
    let ghost cells_start = out@;
    let mut file: u8 = 0;
    while file < 8
        invariant
            file <= 8,
            rank < 8,
            p == *pos,
            wk == (match display_king(p, 0) {
                Some(k) => Some(k as u8),
                None => None::<u8>,
            }),
            bk == (match display_king(p, 1) {
                Some(k) => Some(k as u8),
                None => None::<u8>,
            }),
            display_king(p, 0) matches Some(k) ==> 0 <= k < 64,
            display_king(p, 1) matches Some(k) ==> 0 <= k < 64,
            cells_start + row_cells(p, wc, bc, rank as int, 0) == out@ + row_cells(p, wc, bc, rank as int, file as int),
        decreases 8 - file,
    {
        let ghost before = out@;
        push_cell(out, pos, wc, bc, wk, bk, rank * 8 + file);
        proof {
            assert(row_cells(p, wc, bc, rank as int, file as int) == cell_display(p, wc, bc, rank * 8 + file)
                + row_cells(p, wc, bc, rank as int, file + 1));
            assert(before + row_cells(p, wc, bc, rank as int, file as int) =~= out@ + row_cells(
                p,
                wc,
                bc,
                rank as int,
                file + 1,
            ));
        }
        file = file + 1;
    }
    proof {
        assert(row_cells(p, wc, bc, rank as int, 8) == Seq::<char>::empty());
        assert(out@ =~= cells_start + row_cells(p, wc, bc, rank as int, 0));
    }
    out.push('|');
    out.push('\n');
    proof {
        assert(final(out)@ =~= old(out)@ + seq![digit_char((rank + 1) as nat), ' ', '|'] + row_cells(
            *pos,
            wc,
            bc,
            rank as int,
            0,
        ) + seq!['|', '\n']);
    }
}

/// Appends the board's ranks, the eighth first.
fn push_board(out: &mut Vec<char>, pos: &Position, wc: bool, bc: bool, wk: Option<u8>, bk: Option<u8>)
    requires
        wk == (match display_king(*pos, 0) {
            Some(k) => Some(k as u8),
            None => None::<u8>,
        }),
        bk == (match display_king(*pos, 1) {
            Some(k) => Some(k as u8),
            None => None::<u8>,
        }),
        display_king(*pos, 0) matches Some(k) ==> 0 <= k < 64,
        display_king(*pos, 1) matches Some(k) ==> 0 <= k < 64,
    ensures
        final(out)@ == old(out)@ + rows_display(*pos, wc, bc, 7),
{
    let ghost p = *pos;
    let ghost start = out@;
    let mut r: u8 = 8;
    while r > 0
        invariant
            r <= 8,
            p == *pos,
            wk == (match display_king(p, 0) {
                Some(k) => Some(k as u8),
                None => None::<u8>,
            }),
            bk == (match display_king(p, 1) {
                Some(k) => Some(k as u8),
                None => None::<u8>,
            }),
            display_king(p, 0) matches Some(k) ==> 0 <= k < 64,
            display_king(p, 1) matches Some(k) ==> 0 <= k < 64,
            start + rows_display(p, wc, bc, 7) == out@ + rows_display(p, wc, bc, r - 1),
        decreases r,
    {
        let rank = r - 1;
        let ghost line_start = out@;
        push_row(out, pos, wc, bc, wk, bk, rank);
        proof {
            assert(rows_display(p, wc, bc, rank as int) == seq![digit_char((rank + 1) as nat), ' ', '|']
                + row_cells(p, wc, bc, rank as int, 0) + seq!['|', '\n'] + rows_display(p, wc, bc, rank - 1));
            assert(line_start + rows_display(p, wc, bc, rank as int) =~= out@ + rows_display(p, wc, bc, rank - 1));
        }
        r = r - 1;
    }
    proof {
        assert(rows_display(p, wc, bc, -1) == Seq::<char>::empty());
        assert(out@ =~= start + rows_display(p, wc, bc, 7));
    }
}

/// Appends a color's name.
fn push_color(out: &mut Vec<char>, c: Color)
    ensures
        final(out)@ == old(out)@ + color_name(c),
{
    match c {
        Color::White => push_str(out, "White"),
        Color::Black => push_str(out, "Black"),
    }
}

/// Appends the castling rights.
fn push_rights(out: &mut Vec<char>, cr: u8)
    ensures
        final(out)@ == old(out)@ + castling_display(cr),
{
    out.push(if cr & 1 != 0 { 'K' } else { '-' });
    out.push(if cr & 2 != 0 { 'Q' } else { '-' });
    out.push(if cr & 4 != 0 { 'k' } else { '-' });
    out.push(if cr & 8 != 0 { 'q' } else { '-' });
    proof {
        assert(final(out)@ =~= old(out)@ + castling_display(cr));
    }
}

/// Appends the en passant square's name, or `-`.
fn push_ep(out: &mut Vec<char>, ep: Option<u8>)
    ensures
        final(out)@ == old(out)@ + ep_display(ep),
{
    match ep {
        Some(e) => {
            out.push(((e % 8) + 97) as char);
            out.push(((e / 8) + 49) as char);
            proof {
                assert(final(out)@ =~= old(out)@ + ep_display(ep));
            }
        },
        None => push_str(out, "-"),
    }
}

/// Appends a result as it is printed.
fn push_result(out: &mut Vec<char>, r: GameResult)
    ensures
        final(out)@ == old(out)@ + result_text(r),
{
    match r {
        GameResult::Ongoing => push_str(out, "Ongoing"),
        GameResult::Checkmate(c) => {
            push_str(out, "Checkmate(");
            push_color(out, c);
            push_str(out, ")");
            proof {
                assert(final(out)@ =~= old(out)@ + result_text(r));
            }
        },
        GameResult::Stalemate => push_str(out, "Stalemate"),
        GameResult::DrawRepetition => push_str(out, "DrawRepetition"),
        GameResult::DrawFiftyMove => push_str(out, "DrawFiftyMove"),
        GameResult::DrawInsufficientMaterial => push_str(out, "DrawInsufficientMaterial"),
    }
}

/// Appends what the display shows below the board.
fn push_status(out: &mut Vec<char>, gs: &GameState)
    ensures
        final(out)@ == old(out)@ + status_display(*gs),
{
    let pos = &gs.position;
    push_str(out, "  +------------------------+\n");
    push_str(out, "    a  b  c  d  e  f  g  h\n\n");
    push_str(out, "Side to move: ");
    push_color(out, pos.side_to_move);
    push_str(out, "\n");
    push_str(out, "Castling: ");
    push_rights(out, pos.castling_rights);
    push_str(out, "\n");
    push_str(out, "En passant: ");
    push_ep(out, pos.en_passant);
    push_str(out, "\n");
    push_str(out, "Game result: ");
    push_result(out, gs.result);
    push_str(out, "\n");
    proof {
        assert(final(out)@ =~= old(out)@ + status_display(*gs));
    }
}

/// The game as the terminal shows it, with each king in check lit.
pub fn position_text(gs: &GameState) -> (r: String)
    requires
        gs.position.wf(),
        gs.position.view().pieces[pidx(0, 5)] != 0,
        gs.position.view().pieces[pidx(1, 5)] != 0,
    ensures
        r@ == game_display(
            *gs,
            attacked(gs.position.view(), king_square(gs.position.view(), 0), 1),
            attacked(gs.position.view(), king_square(gs.position.view(), 1), 0),
        ),
{
    let pos = &gs.position;
    let wc = pos.is_in_check(Color::White);
    let bc = pos.is_in_check(Color::Black);
    let wk = king_of(pos, 0);
    let bk = king_of(pos, 1);
    let mut out: Vec<char> = Vec::new();
    push_str(&mut out, "  +------------------------+\n");
    push_board(&mut out, pos, wc, bc, wk, bk);
    push_status(&mut out, gs);
    proof {
        assert(out@ =~= game_display(*gs, wc, bc));
    }
    string_from_chars(out)
}

} // verus!

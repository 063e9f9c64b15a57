//! A chess position: the board, whose move it is, castling rights, the en
//! passant square and the move clocks; attacks, check, and making and
//! unmaking moves.
use vstd::prelude::*;
use vstd::std_specs::bits::u64_trailing_zeros;
use crate::bits::{bit, group_bit_lemmas, lowest_square, lemma_zero_iff_empty};
use crate::attacks::{
    knight_step, king_step, pawn_step, bishop_reach, rook_reach, knight_attacks, king_attacks, pawn_attacks, bishop_attacks, rook_attacks,
};
use crate::bitboards::{Bitboards, BoardView, Cell, pidx, start_mailbox};
use crate::types::{Color, Piece, MoveFlag, Move, lemma_piece_index, lemma_color_index};
use crate::zobrist::ZobristKeys;

verus! {

broadcast use group_bit_lemmas, lemma_piece_index, lemma_color_index;

/// What a move changed that the board alone cannot give back.
#[derive(Clone, Copy)]
pub struct Undo {
    pub moved_piece: Piece,
    pub captured: Option<Piece>,
    pub castling_rights: u8,
    pub en_passant: Option<u8>,
    pub halfmove_clock: u32,
    pub fullmove_count: u32,
}

#[derive(Clone)]
pub struct Position {
    pub bitboards: Bitboards,
    pub side_to_move: Color,
    /// Bit 0: White king side, 1: White queen side, 2: Black king side, 3: Black queen side.
    pub castling_rights: u8,
    pub en_passant: Option<u8>,
    pub halfmove_clock: u32,
    pub fullmove_count: u32,
    pub zobrist_keys: ZobristKeys,
}

/// The piece of color `c` and kind `p` stands on `s`.
pub open spec fn piece_at(v: BoardView, s: int, c: int, p: int) -> bool {
    v.mailbox[s] == Some((c as u8, p as u8))
}

/// Square `sq` is attacked by color `c`: a pawn of `c` stands where it
/// captures towards `sq`; a knight or king of `c` stands a knight's or king's
/// step away; or walking from `sq` along a diagonal (a file or rank) the
/// first piece met is a bishop or queen (a rook or queen) of `c`.
pub open spec fn attacked(v: BoardView, sq: int, c: int) -> bool {
    ||| exists|a: int| 0 <= a < 64 && piece_at(v, a, c, 0) && #[trigger] pawn_step(c, a, sq)
    ||| exists|a: int| 0 <= a < 64 && piece_at(v, a, c, 1) && #[trigger] knight_step(sq, a)
    ||| exists|a: int| 0 <= a < 64 && piece_at(v, a, c, 5) && #[trigger] king_step(sq, a)
    ||| exists|a: int|
        0 <= a < 64 && (piece_at(v, a, c, 2) || piece_at(v, a, c, 4)) && #[trigger] bishop_reach(v.all, sq, a)
    ||| exists|a: int|
        0 <= a < 64 && (piece_at(v, a, c, 3) || piece_at(v, a, c, 4)) && #[trigger] rook_reach(v.all, sq, a)
}

/// The square of the king of color `c` (the lowest, should there be several).
pub open spec fn king_square(v: BoardView, c: int) -> int {
    u64_trailing_zeros(v.pieces[pidx(c, 5)]) as int
}

/// The cell as a color and a piece.
pub open spec fn cell_piece(m: Cell) -> Option<(Color, Piece)> {
    match m {
        Some((c, p)) => Some((Color::from_index(c as int), Piece::from_index(p as int))),
        None => None,
    }
}

/// Under agreement, the board of `(c, k)` marks exactly the squares where that piece stands.
pub proof fn lemma_has_bit(v: BoardView, c: int, k: int, s: int)
    requires
        v.wf(),
        0 <= c < 2,
        0 <= k < 6,
        0 <= s < 64,
    ensures
        bit(v.pieces[pidx(c, k)], s) <==> piece_at(v, s, c, k),
{
    assert(pidx(c, k) / 6 == c && pidx(c, k) % 6 == k) by (nonlinear_arith)
        requires
            0 <= c < 2,
            0 <= k < 6,
    ;
    assert(bit(v.pieces[pidx(c, k)], s) <==> v.mailbox[s] == Some(((pidx(c, k) / 6) as u8, (pidx(c, k) % 6) as u8)));
}

/// Under agreement, the board of color `c` marks exactly the squares its pieces stand on.
pub proof fn lemma_color_bit(v: BoardView, c: int, s: int)
    requires
        v.wf(),
        0 <= c < 2,
        0 <= s < 64,
    ensures
        bit(v.color[c], s) <==> (v.mailbox[s] matches Some((cc, _)) && cc == c),
        bit(v.all, s) <==> v.mailbox[s] is Some,
{
    assert(bit(v.color[c], s) <==> (v.mailbox[s] is Some && v.mailbox[s].unwrap().0 == c));
    assert(bit(v.all, s) <==> v.mailbox[s] is Some);
}

proof fn lemma_pawn_step_flip(c: int, a: int, t: int)
    requires
        0 <= c < 2,
    ensures
        pawn_step(c, a, t) <==> pawn_step(1 - c, t, a),
{
}

/// A board that is not empty sets some square.
proof fn lemma_hit_witness(x: u64)
    requires
        x != 0,
    ensures
        exists|a: int| 0 <= a < 64 && #[trigger] bit(x, a),
{
    lemma_zero_iff_empty(x);
}


/// The cell of a square as the piece kind index on it, if any.
pub open spec fn piece_kind(m: Cell) -> Option<int> {
    match m {
        Some((_, p)) => Some(Piece::from_index(p as int).index()),
        None => None,
    }
}

/// The square of the pawn taken en passant by a move of color `c` to `to`.
pub open spec fn ep_victim(c: int, to: int) -> int {
    if c == 0 {
        to - 8
    } else {
        to + 8
    }
}

/// The rook's squares `(from, to)` for a castle of color `c`, king side or not.
pub open spec fn castle_rook(c: int, king_side: bool) -> (int, int) {
    if king_side {
        if c == 0 {
            (7, 5)
        } else {
            (63, 61)
        }
    } else {
        if c == 0 {
            (0, 3)
        } else {
            (56, 59)
        }
    }
}

/// The boards after color `c` makes `mv` with piece `moved`, `cap` being
/// the kind of piece that stood on the destination: the captured piece is
/// taken off (unless en passant), the moving piece (or, for a promotion,
/// the piece promoted to) goes from `from` to `to`, the pawn taken en passant
/// is taken off, and for a castle the rook jumps over the king.
pub open spec fn make_view(v: BoardView, mv: Move, c: int, moved: int, cap: Option<int>) -> BoardView {
    let from = mv.from as int;
    let to = mv.to as int;
    let v1 = if cap is Some && mv.flag != MoveFlag::EnPassant {
        v.clear(1 - c, cap.unwrap(), to)
    } else {
        v
    };
    let v2 = if mv.flag.is_promo() {
        v1.clear(c, 0, from).set(c, mv.promotion.unwrap().index(), to)
    } else {
        v1.clear(c, moved, from).set(c, moved, to)
    };
    let v3 = if mv.flag == MoveFlag::EnPassant {
        v2.clear(1 - c, 0, ep_victim(c, to))
    } else {
        v2
    };
    if mv.flag == MoveFlag::KingCastle {
        v3.clear(c, 3, castle_rook(c, true).0).set(c, 3, castle_rook(c, true).1)
    } else if mv.flag == MoveFlag::QueenCastle {
        v3.clear(c, 3, castle_rook(c, false).0).set(c, 3, castle_rook(c, false).1)
    } else {
        v3
    }
}

/// The boards after color `c` takes back `mv`, told by `u`: the moving
/// piece (or a pawn, for a promotion) goes back, the captured piece comes
/// back, and a castling rook goes back to its corner.
pub open spec fn undo_view(v: BoardView, mv: Move, c: int, u: Undo) -> BoardView {
    let from = mv.from as int;
    let to = mv.to as int;
    let moved = u.moved_piece.index();
    let v1 = if mv.flag.is_promo() {
        v.clear(c, mv.promotion.unwrap().index(), to).set(c, 0, from)
    } else {
        v.clear(c, moved, to).set(c, moved, from)
    };
    let v2 = if u.captured is Some && mv.flag != MoveFlag::EnPassant {
        v1.set(1 - c, u.captured.unwrap().index(), to)
    } else {
        v1
    };
    let v3 = if mv.flag == MoveFlag::EnPassant {
        v2.set(1 - c, 0, ep_victim(c, to))
    } else {
        v2
    };
    if mv.flag == MoveFlag::KingCastle {
        v3.clear(c, 3, castle_rook(c, true).1).set(c, 3, castle_rook(c, true).0)
    } else if mv.flag == MoveFlag::QueenCastle {
        v3.clear(c, 3, castle_rook(c, false).1).set(c, 3, castle_rook(c, false).0)
    } else {
        v3
    }
}

/// Castling rights after a move: taking a rook on a corner drops the right
/// of that corner; moving the king drops both rights of its color; moving a
/// rook from a corner drops the right of that corner.
pub open spec fn rights_after(cr: u8, mv: Move, c: int, moved: int, cap: Option<int>) -> u8 {
    let cr1 = if cap == Some(3int) && mv.flag != MoveFlag::EnPassant {
        if mv.to == 0 {
            cr & !0b0010u8
        } else if mv.to == 7 {
            cr & !0b0001u8
        } else if mv.to == 56 {
            cr & !0b1000u8
        } else if mv.to == 63 {
            cr & !0b0100u8
        } else {
            cr
        }
    } else {
        cr
    };
    if c == 0 {
        let cr2 = if moved == 5 {
            cr1 & !0b0011u8
        } else {
            cr1
        };
        if moved == 3 {
            let cr3 = if mv.from == 0 {
                cr2 & !0b0010u8
            } else {
                cr2
            };
            if mv.from == 7 {
                cr3 & !0b0001u8
            } else {
                cr3
            }
        } else {
            cr2
        }
    } else {
        let cr2 = if moved == 5 {
            cr1 & !0b1100u8
        } else {
            cr1
        };
        if moved == 3 {
            let cr3 = if mv.from == 56 {
                cr2 & !0b1000u8
            } else {
                cr2
            };
            if mv.from == 63 {
                cr3 & !0b0100u8
            } else {
                cr3
            }
        } else {
            cr2
        }
    }
}

/// The move resets the fifty-move clock: a capture or a pawn move.
pub open spec fn resets_clock(mv: Move, moved: int) -> bool {
    mv.flag.is_capture_flag() || moved == 0 || mv.flag.is_promo()
}

/// `make_move` can be asked to make `mv` of color `c` without panicking.
pub open spec fn can_make(v: BoardView, c: int, mv: Move, halfmove: u32) -> bool {
    &&& mv.from < 64
    &&& mv.to < 64
    &&& v.mailbox[mv.from as int] is Some
    &&& (mv.flag.is_promo() ==> mv.promotion is Some)
    &&& (mv.flag == MoveFlag::EnPassant ==> 0 <= ep_victim(c, mv.to as int) < 64)
    &&& (mv.flag == MoveFlag::DoublePawnPush && c == 0 ==> mv.to >= 8)
    &&& (!resets_clock(mv, piece_kind(v.mailbox[mv.from as int]).unwrap()) ==> halfmove < u32::MAX)
}

/// The move is one the boards can follow: a piece of the mover on `from`;
/// `to` empty or holding a piece of the other color; a promotion made by a
/// pawn; en passant onto an empty square past a pawn of the other color; a
/// castle by the king with its rook in the corner and the rook's target
/// empty.
pub open spec fn move_fits(v: BoardView, c: int, mv: Move) -> bool {
    let from = mv.from as int;
    let to = mv.to as int;
    &&& 0 <= c < 2
    &&& from != to
    &&& (v.mailbox[from] matches Some((cc, _)) && cc == c)
    &&& (v.mailbox[to] matches Some((cc, _)) ==> cc == 1 - c)
    &&& (mv.flag.is_promo() ==> (v.mailbox[from] matches Some((_, pp)) && pp == 0))
    &&& (mv.flag == MoveFlag::EnPassant ==> {
        &&& v.mailbox[to] is None
        &&& 0 <= ep_victim(c, to) < 64
        &&& ep_victim(c, to) != from
        &&& v.mailbox[ep_victim(c, to)] == Some(((1 - c) as u8, 0u8))
    })
    &&& (mv.flag == MoveFlag::DoublePawnPush ==> 0 <= ep_victim(c, to) < 64)
    &&& (mv.flag == MoveFlag::KingCastle || mv.flag == MoveFlag::QueenCastle ==> {
        let (rf, rt) = castle_rook(c, mv.flag == MoveFlag::KingCastle);
        &&& v.mailbox[rf] == Some((c as u8, 3u8))
        &&& v.mailbox[rt] is None
        &&& rf != from && rf != to && rt != from && rt != to
    })
}

/// `q` and `u` are what `make_move(mv)` makes of `p` and returns.
pub open spec fn made(p: Position, mv: Move, q: Position, u: Undo) -> bool {
    let v = p.view();
    let c = p.side_to_move.index();
    let moved = piece_kind(v.mailbox[mv.from as int]).unwrap();
    let cap = piece_kind(v.mailbox[mv.to as int]);
    &&& u.moved_piece == Piece::from_index(moved)
    &&& u.captured == (match cap {
        Some(k) => Some(Piece::from_index(k)),
        None => None,
    })
    &&& u.castling_rights == p.castling_rights
    &&& u.en_passant == p.en_passant
    &&& u.halfmove_clock == p.halfmove_clock
    &&& u.fullmove_count == p.fullmove_count
    &&& q.view() == make_view(v, mv, c, moved, cap)
    &&& q.side_to_move == p.side_to_move.other()
    &&& q.castling_rights == rights_after(p.castling_rights, mv, c, moved, cap)
    &&& q.en_passant == (if mv.flag == MoveFlag::DoublePawnPush {
        Some((if c == 0 { mv.to - 8 } else { mv.to + 8 }) as u8)
    } else {
        None
    })
    &&& q.halfmove_clock == (if resets_clock(mv, moved) {
        0
    } else {
        (p.halfmove_clock + 1) as u32
    })
    &&& q.fullmove_count == (if c == 1 {
        p.fullmove_count.wrapping_add(1)
    } else {
        p.fullmove_count
    })
    &&& q.zobrist_keys == p.zobrist_keys
}

/// `q` is what `undo_move(mv, u)` makes of `p`.
pub open spec fn unmade(p: Position, mv: Move, u: Undo, q: Position) -> bool {
    let c = p.side_to_move.other().index();
    &&& q.view() == undo_view(p.view(), mv, c, u)
    &&& q.side_to_move == p.side_to_move.other()
    &&& q.castling_rights == u.castling_rights
    &&& q.en_passant == u.en_passant
    &&& q.halfmove_clock == u.halfmove_clock
    &&& q.fullmove_count == u.fullmove_count
    &&& q.zobrist_keys == p.zobrist_keys
}

/// `undo_move` can be asked to take back `mv` of color `c` without panicking.
pub open spec fn can_unmake(c: int, mv: Move) -> bool {
    &&& mv.from < 64
    &&& mv.to < 64
    &&& (mv.flag.is_promo() ==> mv.promotion is Some)
    &&& (mv.flag == MoveFlag::EnPassant ==> 0 <= ep_victim(c, mv.to as int) < 64)
}

/// Making a move that fits keeps the boards in agreement.
pub proof fn lemma_make_wf(v: BoardView, mv: Move, c: int, moved: int, cap: Option<int>)
    requires
        v.wf(),
        move_fits(v, c, mv),
        mv.from < 64,
        mv.to < 64,
        moved == piece_kind(v.mailbox[mv.from as int]).unwrap(),
        cap == piece_kind(v.mailbox[mv.to as int]),
        mv.flag.is_promo() ==> mv.promotion is Some,
    ensures
        make_view(v, mv, c, moved, cap).wf(),
{
    let from = mv.from as int;
    let to = mv.to as int;
    let v1 = if cap is Some && mv.flag != MoveFlag::EnPassant {
        crate::bitboards::lemma_clear_wf(v, 1 - c, cap.unwrap(), to);
        v.clear(1 - c, cap.unwrap(), to)
    } else {
        v
    };
    assert(v1.wf());
    assert(v1.mailbox[from] == v.mailbox[from]);
    let v2 = if mv.flag.is_promo() {
        crate::bitboards::lemma_clear_wf(v1, c, 0, from);
        crate::bitboards::lemma_set_wf(v1.clear(c, 0, from), c, mv.promotion.unwrap().index(), to);
        v1.clear(c, 0, from).set(c, mv.promotion.unwrap().index(), to)
    } else {
        crate::bitboards::lemma_clear_wf(v1, c, moved, from);
        crate::bitboards::lemma_set_wf(v1.clear(c, moved, from), c, moved, to);
        v1.clear(c, moved, from).set(c, moved, to)
    };
    assert(v2.wf());
    let v3 = if mv.flag == MoveFlag::EnPassant {
        crate::bitboards::lemma_clear_wf(v2, 1 - c, 0, ep_victim(c, to));
        v2.clear(1 - c, 0, ep_victim(c, to))
    } else {
        v2
    };
    assert(v3.wf());
    if mv.flag == MoveFlag::KingCastle || mv.flag == MoveFlag::QueenCastle {
        let (rf, rt) = castle_rook(c, mv.flag == MoveFlag::KingCastle);
        crate::bitboards::lemma_clear_wf(v3, c, 3, rf);
        crate::bitboards::lemma_set_wf(v3.clear(c, 3, rf), c, 3, rt);
    }
}

/// `rights_after`, computed.
fn rights_update(cr: u8, mv: Move, color_idx: usize, moved_piece: Piece, captured: Option<Piece>) -> (r: u8)
    requires
        color_idx < 2,
    ensures
        r == rights_after(cr, mv, color_idx as int, moved_piece.index(), match captured {
            Some(k) => Some(k.index()),
            None => None,
        }),
{
    let mut cr = cr;
    let captured_rook = match captured {
        Some(Piece::Rook) => true,
        _ => false,
    };
    if captured_rook && mv.flag != MoveFlag::EnPassant {
        if mv.to == 0 {
            cr = cr & !0b0010;
        } else if mv.to == 7 {
            cr = cr & !0b0001;
        } else if mv.to == 56 {
            cr = cr & !0b1000;
        } else if mv.to == 63 {
            cr = cr & !0b0100;
        }
    }
    if color_idx == 0 {
        if moved_piece == Piece::King {
            cr = cr & !0b0011;
        }
        if moved_piece == Piece::Rook {
            if mv.from == 0 {
                cr = cr & !0b0010;
            }
            if mv.from == 7 {
                cr = cr & !0b0001;
            }
        }
    } else {
        if moved_piece == Piece::King {
            cr = cr & !0b1100;
        }
        if moved_piece == Piece::Rook {
            if mv.from == 56 {
                cr = cr & !0b1000;
            }
            if mv.from == 63 {
                cr = cr & !0b0100;
            }
        }
    }
    cr
}

/// The board part of `make_move`.
fn move_pieces(bb: &mut Bitboards, mv: Move, color_idx: usize, moved_piece: Piece, captured: Option<Piece>)
    requires
        color_idx < 2,
        mv.from < 64,
        mv.to < 64,
        mv.flag.is_promo() ==> mv.promotion is Some,
        mv.flag == MoveFlag::EnPassant ==> 0 <= ep_victim(color_idx as int, mv.to as int) < 64,
    ensures
        final(bb).view() == make_view(old(bb).view(), mv, color_idx as int, moved_piece.index(), match captured {
            Some(k) => Some(k.index()),
            None => None,
        }),
{
    if let Some(cap_p) = captured {
        if mv.flag != MoveFlag::EnPassant {
            bb.clear_piece(1 - color_idx, cap_p.idx(), mv.to);
        }
    }
    match mv.flag {
        MoveFlag::Promotion | MoveFlag::PromotionCapture => {
            let promo_idx = match mv.promotion {
                Some(pp) => pp.idx(),
                None => {
                    assert(false);
                    0
                },
            };
            bb.clear_piece(color_idx, 0, mv.from);
            bb.set_piece(color_idx, promo_idx, mv.to);
        },
        _ => {
            bb.clear_piece(color_idx, moved_piece.idx(), mv.from);
            bb.set_piece(color_idx, moved_piece.idx(), mv.to);
        },
    }
    if mv.flag == MoveFlag::EnPassant {
        let cap_sq = if color_idx == 0 {
            mv.to - 8
        } else {
            mv.to + 8
        };
        bb.clear_piece(1 - color_idx, 0, cap_sq);
    }
    match mv.flag {
        MoveFlag::KingCastle => {
            let (rook_from, rook_to) = if color_idx == 0 {
                (7u8, 5u8)
            } else {
                (63u8, 61u8)
            };
            bb.clear_piece(color_idx, 3, rook_from);
            bb.set_piece(color_idx, 3, rook_to);
        },
        MoveFlag::QueenCastle => {
            let (rook_from, rook_to) = if color_idx == 0 {
                (0u8, 3u8)
            } else {
                (56u8, 59u8)
            };
            bb.clear_piece(color_idx, 3, rook_from);
            bb.set_piece(color_idx, 3, rook_to);
        },
        _ => {},
    }
}

impl Position {
    /// The board agrees with itself and the en passant square is a square.
    pub open spec fn wf(&self) -> bool {
        &&& self.bitboards.wf()
        &&& (self.en_passant matches Some(e) ==> e < 64)
    }

    pub open spec fn view(&self) -> BoardView {
        self.bitboards.view()
    }

    /// The starting position, White to move, all castling rights, clocks at 0 and 1.
    #[allow(clippy::new_without_default)]
    pub fn new() -> (r: Self)
        ensures
            r.wf(),
            r.bitboards.mailbox@ == start_mailbox(),
            r.side_to_move == Color::White,
            r.castling_rights == 0b1111,
            r.en_passant is None,
            r.halfmove_clock == 0,
            r.fullmove_count == 1,
            r.zobrist_keys.drawn(),
    {
        Self {
            bitboards: Bitboards::new(),
            side_to_move: Color::White,
            castling_rights: 0b1111,
            en_passant: None,
            halfmove_clock: 0,
            fullmove_count: 1,
            zobrist_keys: ZobristKeys::new(),
        }
    }

    /// What stands on `square`.
    pub fn piece_on(&self, square: u8) -> (r: Option<(Color, Piece)>)
        requires
            square < 64,
        ensures
            r == cell_piece(self.bitboards.mailbox@[square as int]),
    {
        match self.bitboards.mailbox[square as usize] {
            Some((c, p)) => {
                let color = if c == 0 {
                    Color::White
                } else {
                    Color::Black
                };
                Some((color, Piece::from_idx(p)))
            },
            None => None,
        }
    }

    /// Whether `square` is attacked by `by_color`.
    pub fn square_under_attack(&self, square: u8, by_color: Color) -> (r: bool)
        requires
            self.wf(),
            square < 64,
        ensures
            r == attacked(self.view(), square as int, by_color.index()),
    {
        let sq = square;
        let idx = by_color.idx();
        let them = by_color.opposite().idx();
        let ghost v = self.view();
        let ghost c = idx as int;
        let bb = &self.bitboards;
        proof {
            assert(v.pieces[pidx(c, 0)] == bb.pieces[idx as int][0]);
            assert(v.pieces[pidx(c, 1)] == bb.pieces[idx as int][1]);
            assert(v.pieces[pidx(c, 2)] == bb.pieces[idx as int][2]);
            assert(v.pieces[pidx(c, 3)] == bb.pieces[idx as int][3]);
            assert(v.pieces[pidx(c, 4)] == bb.pieces[idx as int][4]);
            assert(v.pieces[pidx(c, 5)] == bb.pieces[idx as int][5]);
        }
        let pawns = pawn_attacks(them, sq) & bb.pieces[idx][0];
        if pawns != 0 {
            proof {
                lemma_hit_witness(pawns);
                let a = choose|a: int| 0 <= a < 64 && #[trigger] bit(pawns, a);
                assert(bit(v.pieces[pidx(c, 0)], a));
                lemma_pawn_step_flip(c, a, sq as int);
                assert(pawn_step(c, a, sq as int));
            }
            return true;
        }
        let knights = knight_attacks(sq) & bb.pieces[idx][1];
        if knights != 0 {
            proof {
                lemma_hit_witness(knights);
                let a = choose|a: int| 0 <= a < 64 && #[trigger] bit(knights, a);
                assert(bit(v.pieces[pidx(c, 1)], a));
                assert(knight_step(sq as int, a));
            }
            return true;
        }
        let kings = king_attacks(sq) & bb.pieces[idx][5];
        if kings != 0 {
            proof {
                lemma_hit_witness(kings);
                let a = choose|a: int| 0 <= a < 64 && #[trigger] bit(kings, a);
                assert(bit(v.pieces[pidx(c, 5)], a));
                assert(king_step(sq as int, a));
            }
            return true;
        }
        let occ = bb.all;
        let diag = bishop_attacks(sq, occ) & (bb.pieces[idx][2] | bb.pieces[idx][4]);
        if diag != 0 {
            proof {
                lemma_hit_witness(diag);
                let a = choose|a: int| 0 <= a < 64 && #[trigger] bit(diag, a);
                assert(bit(v.pieces[pidx(c, 2)], a) || bit(v.pieces[pidx(c, 4)], a));
                assert(bishop_reach(v.all, sq as int, a));
            }
            return true;
        }
        let straight = rook_attacks(sq, occ) & (bb.pieces[idx][3] | bb.pieces[idx][4]);
        if straight != 0 {
            proof {
                lemma_hit_witness(straight);
                let a = choose|a: int| 0 <= a < 64 && #[trigger] bit(straight, a);
                assert(bit(v.pieces[pidx(c, 3)], a) || bit(v.pieces[pidx(c, 4)], a));
                assert(rook_reach(v.all, sq as int, a));
            }
            return true;
        }
        proof {
            lemma_zero_iff_empty(pawns);
            lemma_zero_iff_empty(knights);
            lemma_zero_iff_empty(kings);
            lemma_zero_iff_empty(diag);
            lemma_zero_iff_empty(straight);
            assert forall|a: int| 0 <= a < 64 && piece_at(v, a, c, 0) implies !#[trigger] pawn_step(c, a, sq as int) by {
                assert(bit(v.pieces[pidx(c, 0)], a));
                assert(!bit(pawns, a));
                lemma_pawn_step_flip(c, a, sq as int);
            }
            assert forall|a: int| 0 <= a < 64 && piece_at(v, a, c, 1) implies !#[trigger] knight_step(sq as int, a) by {
                assert(bit(v.pieces[pidx(c, 1)], a));
                assert(!bit(knights, a));
            }
            assert forall|a: int| 0 <= a < 64 && piece_at(v, a, c, 5) implies !#[trigger] king_step(sq as int, a) by {
                assert(bit(v.pieces[pidx(c, 5)], a));
                assert(!bit(kings, a));
            }
            assert forall|a: int| 0 <= a < 64 && (piece_at(v, a, c, 2) || piece_at(v, a, c, 4)) implies !#[trigger] bishop_reach(v.all, sq as int, a) by {
                assert(bit(v.pieces[pidx(c, 2)], a) || bit(v.pieces[pidx(c, 4)], a));
                assert(!bit(diag, a));
            }
            assert forall|a: int| 0 <= a < 64 && (piece_at(v, a, c, 3) || piece_at(v, a, c, 4)) implies !#[trigger] rook_reach(v.all, sq as int, a) by {
                assert(bit(v.pieces[pidx(c, 3)], a) || bit(v.pieces[pidx(c, 4)], a));
                assert(!bit(straight, a));
            }
        }
        false
    }

    /// Makes `mv` for the side to move and returns what is needed to take it back.
    pub fn make_move(&mut self, mv: Move) -> (undo: Undo)
        requires
            can_make(old(self).view(), old(self).side_to_move.index(), mv, old(self).halfmove_clock),
        ensures
            made(*old(self), mv, *final(self), undo),
            old(self).wf() && move_fits(old(self).view(), old(self).side_to_move.index(), mv)
                ==> final(self).wf(),
    {
        let ghost p0 = *self;
        let ghost v0 = self.view();
        let (_, moved_piece) = match self.piece_on(mv.from) {
            Some(x) => x,
            None => {
                assert(false);
                (Color::White, Piece::Pawn)
            },
        };
        let color_idx = self.side_to_move.idx();
        let captured = match self.piece_on(mv.to) {
            Some((_, piece)) => Some(piece),
            None => None,
        };
        let undo = Undo {
            moved_piece,
            captured,
            castling_rights: self.castling_rights,
            en_passant: self.en_passant,
            halfmove_clock: self.halfmove_clock,
            fullmove_count: self.fullmove_count,
        };
        let ghost moved = moved_piece.index();
        let ghost cap = piece_kind(v0.mailbox[mv.to as int]);
        let is_capture = match mv.flag {
            MoveFlag::Capture | MoveFlag::PromotionCapture | MoveFlag::EnPassant => true,
            _ => false,
        };
        let is_pawn_move = moved_piece == Piece::Pawn || match mv.flag {
            MoveFlag::Promotion | MoveFlag::PromotionCapture => true,
            _ => false,
        };
        if is_capture || is_pawn_move {
            self.halfmove_clock = 0;
        } else {
            self.halfmove_clock = self.halfmove_clock + 1;
        }
        self.castling_rights = rights_update(self.castling_rights, mv, color_idx, moved_piece, captured);
        move_pieces(&mut self.bitboards, mv, color_idx, moved_piece, captured);
        self.en_passant = match mv.flag {
            MoveFlag::DoublePawnPush => Some(
                if color_idx == 0 {
                    mv.to - 8
                } else {
                    mv.to + 8
                },
            ),
            _ => None,
        };
        if color_idx == 1 {
            self.fullmove_count = self.fullmove_count.wrapping_add(1);
        }
        self.side_to_move = self.side_to_move.opposite();
        proof {
            if p0.wf() && move_fits(v0, color_idx as int, mv) {
                lemma_make_wf(v0, mv, color_idx as int, moved, cap);
            }
        }
        undo
    }

    /// Takes back `mv`, made from the position `undo` was returned for.
    pub fn undo_move(&mut self, mv: Move, undo: Undo)
        requires
            can_unmake(old(self).side_to_move.other().index(), mv),
        ensures
            unmade(*old(self), mv, undo, *final(self)),
    {
        self.side_to_move = self.side_to_move.opposite();
        let color_idx = self.side_to_move.idx();
        match mv.flag {
            MoveFlag::Promotion | MoveFlag::PromotionCapture => {
                let promo_idx = match mv.promotion {
                    Some(pp) => pp.idx(),
                    None => {
                        assert(false);
                        0
                    },
                };
                self.bitboards.clear_piece(color_idx, promo_idx, mv.to);
                self.bitboards.set_piece(color_idx, 0, mv.from);
            },
            _ => {
                self.bitboards.clear_piece(color_idx, undo.moved_piece.idx(), mv.to);
                self.bitboards.set_piece(color_idx, undo.moved_piece.idx(), mv.from);
            },
        }
        if let Some(cap_p) = undo.captured {
            if mv.flag != MoveFlag::EnPassant {
                self.bitboards.set_piece(1 - color_idx, cap_p.idx(), mv.to);
            }
        }
        if mv.flag == MoveFlag::EnPassant {
            let cap_sq = if color_idx == 0 {
                mv.to - 8
            } else {
                mv.to + 8
            };
            self.bitboards.set_piece(1 - color_idx, 0, cap_sq);
        }
        match mv.flag {
            MoveFlag::KingCastle => {
                let (rook_from, rook_to) = if color_idx == 0 {
                    (7u8, 5u8)
                } else {
                    (63u8, 61u8)
                };
                self.bitboards.clear_piece(color_idx, 3, rook_to);
                self.bitboards.set_piece(color_idx, 3, rook_from);
            },
            MoveFlag::QueenCastle => {
                let (rook_from, rook_to) = if color_idx == 0 {
                    (0u8, 3u8)
                } else {
                    (56u8, 59u8)
                };
                self.bitboards.clear_piece(color_idx, 3, rook_to);
                self.bitboards.set_piece(color_idx, 3, rook_from);
            },
            _ => {},
        }
        self.castling_rights = undo.castling_rights;
        self.en_passant = undo.en_passant;
        self.halfmove_clock = undo.halfmove_clock;
        self.fullmove_count = undo.fullmove_count;
    }

    /// Whether the king of `color` is attacked. Panics when `color` has no king.
    pub fn is_in_check(&self, color: Color) -> (r: bool)
        requires
            self.wf(),
            self.view().pieces[pidx(color.index(), 5)] != 0,
        ensures
            r == attacked(self.view(), king_square(self.view(), color.index()), color.other().index()),
    {
        let idx = color.idx();
        let king_bb = self.bitboards.pieces[idx][5];
        proof {
            crate::bitboards::lemma_view_index(self.bitboards, idx as int, 5);
        }
        let king_sq = lowest_square(king_bb);
        self.square_under_attack(king_sq, color.opposite())
    }
}

} // verus!

verus! {

/// Taking back a move with the `Undo` that making it returned restores the
/// position: the boards, the side to move, the castling rights, the en
/// passant square, the fifty-move clock and the full-move counter.
pub proof fn law_undo_restores(p: Position, mv: Move, q: Position, u: Undo, r: Position)
    requires
        p.wf(),
        mv.from < 64,
        mv.to < 64,
        mv.flag.is_promo() ==> mv.promotion is Some,
        move_fits(p.view(), p.side_to_move.index(), mv),
        made(p, mv, q, u),
        unmade(q, mv, u, r),
    ensures
        r.wf(),
        q.wf(),
        r.view() == p.view(),
        r.side_to_move == p.side_to_move,
        r.castling_rights == p.castling_rights,
        r.en_passant == p.en_passant,
        r.halfmove_clock == p.halfmove_clock,
        r.zobrist_keys == p.zobrist_keys,
        r.fullmove_count == p.fullmove_count,
{
    let v = p.view();
    let c = p.side_to_move.index();
    let from = mv.from as int;
    let to = mv.to as int;
    let moved = piece_kind(v.mailbox[from]).unwrap();
    let cap = piece_kind(v.mailbox[to]);
    lemma_make_wf(v, mv, c, moved, cap);
    let w = q.view();
    assert(w == make_view(v, mv, c, moved, cap));
    assert(q.side_to_move.other().index() == c);
    assert(u.moved_piece.index() == moved);
    // The boards taken back step by step, each step keeping them in agreement.
    let w1 = if mv.flag.is_promo() {
        crate::bitboards::lemma_clear_wf(w, c, mv.promotion.unwrap().index(), to);
        crate::bitboards::lemma_set_wf(w.clear(c, mv.promotion.unwrap().index(), to), c, 0, from);
        w.clear(c, mv.promotion.unwrap().index(), to).set(c, 0, from)
    } else {
        crate::bitboards::lemma_clear_wf(w, c, moved, to);
        crate::bitboards::lemma_set_wf(w.clear(c, moved, to), c, moved, from);
        w.clear(c, moved, to).set(c, moved, from)
    };
    let w2 = if u.captured is Some && mv.flag != MoveFlag::EnPassant {
        crate::bitboards::lemma_set_wf(w1, 1 - c, u.captured.unwrap().index(), to);
        w1.set(1 - c, u.captured.unwrap().index(), to)
    } else {
        w1
    };
    let w3 = if mv.flag == MoveFlag::EnPassant {
        crate::bitboards::lemma_set_wf(w2, 1 - c, 0, ep_victim(c, to));
        w2.set(1 - c, 0, ep_victim(c, to))
    } else {
        w2
    };
    if mv.flag == MoveFlag::KingCastle || mv.flag == MoveFlag::QueenCastle {
        let (rf, rt) = castle_rook(c, mv.flag == MoveFlag::KingCastle);
        crate::bitboards::lemma_clear_wf(w3, c, 3, rt);
        crate::bitboards::lemma_set_wf(w3.clear(c, 3, rt), c, 3, rf);
    }
    assert(r.view().mailbox =~= v.mailbox);
    crate::bitboards::lemma_wf_determined(r.view(), v);
}

} // verus!

verus! {

/// The key of what stands on square `s`: the piece's key for that square, or 0.
pub open spec fn cell_key(keys: ZobristKeys, m: Cell, s: int) -> u64 {
    match m {
        Some((c, p)) => keys.pieces[c as int][p as int][s],
        None => 0,
    }
}

/// The keys of the first `n` squares xored together.
pub open spec fn board_key(keys: ZobristKeys, mailbox: Seq<Cell>, n: int) -> u64
    decreases n,
{
    if n <= 0 {
        0
    } else {
        board_key(keys, mailbox, n - 1) ^ cell_key(keys, mailbox[n - 1], n - 1)
    }
}

/// The Zobrist hash of a position: the keys of its pieces on their squares,
/// of each castling right held, of the en passant file, and the
/// side-to-move key when White is to move, xored together.
pub open spec fn zobrist_spec(p: Position) -> u64 {
    let k = p.zobrist_keys;
    let cr = p.castling_rights;
    let h0 = board_key(k, p.view().mailbox, 64);
    let h1 = if cr & 1 != 0 { h0 ^ k.castling[0] } else { h0 };
    let h2 = if cr & 2 != 0 { h1 ^ k.castling[1] } else { h1 };
    let h3 = if cr & 4 != 0 { h2 ^ k.castling[2] } else { h2 };
    let h4 = if cr & 8 != 0 { h3 ^ k.castling[3] } else { h3 };
    let h5 = match p.en_passant {
        Some(e) => h4 ^ k.en_passant[(e % 8) as int],
        None => h4,
    };
    if p.side_to_move == Color::White {
        h5 ^ k.side_to_move
    } else {
        h5
    }
}

impl Position {
    /// The Zobrist hash of the position.
    pub fn zobrist_hash(&self) -> (hash: u64)
        requires
            self.wf(),
        ensures
            hash == zobrist_spec(*self),
    {
        let mut hash: u64 = 0;
        let mut s: usize = 0;
        while s < 64
            invariant
                s <= 64,
                self.wf(),
                hash == board_key(self.zobrist_keys, self.view().mailbox, s as int),
            decreases 64 - s,
        {
            proof {
                assert(crate::bitboards::cell_ok(self.view().mailbox[s as int]));
            }
            let ghost prev = hash;
            match self.bitboards.mailbox[s] {
                Some((c, p)) => {
                    hash = hash ^ self.zobrist_keys.pieces[c as usize][p as usize][s];
                },
                None => {
                    assert(prev ^ 0u64 == prev) by (bit_vector);
                },
            }
            assert(hash == prev ^ cell_key(self.zobrist_keys, self.view().mailbox[s as int], s as int));
            s = s + 1;
        }
        let keys = &self.zobrist_keys;
        if self.castling_rights & 0b0001 != 0 {
            hash = hash ^ keys.castling[0];
        }
        if self.castling_rights & 0b0010 != 0 {
            hash = hash ^ keys.castling[1];
        }
        if self.castling_rights & 0b0100 != 0 {
            hash = hash ^ keys.castling[2];
        }
        if self.castling_rights & 0b1000 != 0 {
            hash = hash ^ keys.castling[3];
        }
        if let Some(ep) = self.en_passant {
            let file = ep % 8;
            hash = hash ^ keys.en_passant[file as usize];
        }
        if self.side_to_move == Color::White {
            hash = hash ^ keys.side_to_move;
        }
        hash
    }

    /// Whether a pawn of `by_color` attacks `square`.
    pub fn is_attacked_by_pawn(&self, square: u8, by_color: Color) -> (r: bool)
        requires
            self.wf(),
            square < 64,
        ensures
            r == exists|a: int| 0 <= a < 64 && piece_at(self.view(), a, by_color.index(), 0) && #[trigger] pawn_step(by_color.index(), a, square as int),
    {
        let idx = by_color.idx();
        let pawns = pawn_attacks(by_color.opposite().idx(), square) & self.bitboards.pieces[idx][0];
        let ghost v = self.view();
        let ghost c = idx as int;
        proof {
            crate::bitboards::lemma_view_index(self.bitboards, c, 0);
            if pawns != 0 {
                lemma_hit_witness(pawns);
                let a = choose|a: int| 0 <= a < 64 && #[trigger] bit(pawns, a);
                lemma_has_bit(v, c, 0, a);
                lemma_pawn_step_flip(c, a, square as int);
            } else {
                lemma_zero_iff_empty(pawns);
                assert forall|a: int| 0 <= a < 64 && piece_at(v, a, c, 0) implies !#[trigger] pawn_step(c, a, square as int) by {
                    lemma_has_bit(v, c, 0, a);
                    assert(!bit(pawns, a));
                    lemma_pawn_step_flip(c, a, square as int);
                }
            }
        }
        pawns != 0
    }

    /// Passes the move: the other side is to move and there is no en
    /// passant square. Returns the en passant square to restore.
    pub fn make_null_move(&mut self) -> (prev_ep: Option<u8>)
        ensures
            prev_ep == old(self).en_passant,
            final(self).view() == old(self).view(),
            final(self).side_to_move == old(self).side_to_move.other(),
            final(self).en_passant is None,
            final(self).castling_rights == old(self).castling_rights,
            final(self).halfmove_clock == old(self).halfmove_clock,
            final(self).fullmove_count == old(self).fullmove_count,
            final(self).zobrist_keys == old(self).zobrist_keys,
    {
        let prev = self.en_passant;
        self.en_passant = None;
        self.side_to_move = self.side_to_move.opposite();
        prev
    }

    /// Takes back a passed move.
    pub fn undo_null_move(&mut self, prev_ep: Option<u8>)
        ensures
            final(self).view() == old(self).view(),
            final(self).side_to_move == old(self).side_to_move.other(),
            final(self).en_passant == prev_ep,
            final(self).castling_rights == old(self).castling_rights,
            final(self).halfmove_clock == old(self).halfmove_clock,
            final(self).fullmove_count == old(self).fullmove_count,
            final(self).zobrist_keys == old(self).zobrist_keys,
    {
        self.en_passant = prev_ep;
        self.side_to_move = self.side_to_move.opposite();
    }
}

} // verus!

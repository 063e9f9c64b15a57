//! The engine as a browser front end sees it: a move with questions about
//! its kind, and a game with text answers about its state.
use vstd::prelude::*;
use vstd::string::StringSliceAdditionalSpecFns;
use crate::types::{Color, Piece, MoveFlag, Move, GameResult};
use crate::bitboards::pidx;
use crate::position::{cell_piece, attacked, king_square};
use crate::movegen::{legal, sound};
use crate::game::{GameState, game_made, game_undone, same_game};
use crate::fen::{fen_ok, fen_read};
use crate::cli::{parse_move_text, text_move};
use crate::uci::{uci_text, move_to_uci};
use crate::text::chars_of;

verus! {

/// A move, as the front end holds it.
pub struct ChessMove(pub Move);

/// A promotion piece: knight, bishop, rook or queen.
pub open spec fn promotion_piece_ok(p: Option<Piece>) -> bool {
    p matches Some(k) ==> (k == Piece::Knight || k == Piece::Bishop || k == Piece::Rook || k == Piece::Queen)
}

/// The letter of a promotion piece.
pub open spec fn promotion_letter(k: Piece) -> Seq<char> {
    match k {
        Piece::Queen => "q"@,
        Piece::Rook => "r"@,
        Piece::Bishop => "b"@,
        _ => "n"@,
    }
}

impl ChessMove {
    /// The square the move starts from.
    pub fn from_sq(&self) -> (r: u8)
        ensures
            r == self.0.from,
    {
        self.0.from
    }

    /// The square the move goes to.
    pub fn to_sq(&self) -> (r: u8)
        ensures
            r == self.0.to,
    {
        self.0.to
    }

    /// Whether the move captures: a capture, a capturing promotion, or en
    /// passant.
    pub fn is_capture(&self) -> (r: bool)
        ensures
            r == (self.0.flag == MoveFlag::Capture || self.0.flag == MoveFlag::PromotionCapture || self.0.flag
                == MoveFlag::EnPassant),
    {
        match self.0.flag {
            MoveFlag::Capture | MoveFlag::PromotionCapture | MoveFlag::EnPassant => true,
            _ => false,
        }
    }

    /// Whether the move takes en passant.
    pub fn is_en_passant(&self) -> (r: bool)
        ensures
            r == (self.0.flag == MoveFlag::EnPassant),
    {
        self.0.flag == MoveFlag::EnPassant
    }

    /// Whether the move pushes a pawn two squares.
    pub fn is_double_pawn_push(&self) -> (r: bool)
        ensures
            r == (self.0.flag == MoveFlag::DoublePawnPush),
    {
        self.0.flag == MoveFlag::DoublePawnPush
    }

    /// Whether the move castles on the king side.
    pub fn is_kingside_castle(&self) -> (r: bool)
        ensures
            r == (self.0.flag == MoveFlag::KingCastle),
    {
        self.0.flag == MoveFlag::KingCastle
    }

    /// Whether the move castles on the queen side.
    pub fn is_queenside_castle(&self) -> (r: bool)
        ensures
            r == (self.0.flag == MoveFlag::QueenCastle),
    {
        self.0.flag == MoveFlag::QueenCastle
    }

    /// Whether the move castles.
    pub fn is_castle(&self) -> (r: bool)
        ensures
            r == (self.0.flag == MoveFlag::KingCastle || self.0.flag == MoveFlag::QueenCastle),
    {
        match self.0.flag {
            MoveFlag::KingCastle | MoveFlag::QueenCastle => true,
            _ => false,
        }
    }

    /// Whether the move promotes.
    pub fn is_promotion(&self) -> (r: bool)
        ensures
            r == (self.0.promotion is Some),
    {
        self.0.promotion.is_some()
    }

    /// The letter of the promotion piece (q, r, b or n), if any.
    pub fn promotion_piece(&self) -> (r: Option<String>)
        requires
            promotion_piece_ok(self.0.promotion),
        ensures
            match self.0.promotion {
                Some(k) => r matches Some(s) && s@ == promotion_letter(k),
                None => r is None,
            },
    {
        match self.0.promotion {
            Some(p) => {
                let s = match p {
                    Piece::Queen => "q".to_owned(),
                    Piece::Rook => "r".to_owned(),
                    Piece::Bishop => "b".to_owned(),
                    _ => "n".to_owned(),
                };
                Some(s)
            },
            None => None,
        }
    }

    /// The move in coordinate notation, such as `e2e4` or `e7e8q`.
    pub fn to_uci(&self) -> (r: String)
        requires
            promotion_piece_ok(self.0.promotion),
        ensures
            r@ == uci_text(self.0),
    {
        move_to_uci(self.0)
    }
}

/// A game, as the front end holds it.
pub struct ChessEngine {
    pub gs: GameState,
}

/// The name of a result: `ongoing`, `checkmate_white` or `checkmate_black`
/// (naming the winner), `stalemate`, `draw_repetition`, `draw_fifty_move`
/// or `draw_insufficient`.
pub open spec fn result_name(r: GameResult) -> Seq<char> {
    match r {
        GameResult::Ongoing => "ongoing"@,
        GameResult::Checkmate(Color::White) => "checkmate_white"@,
        GameResult::Checkmate(Color::Black) => "checkmate_black"@,
        GameResult::Stalemate => "stalemate"@,
        GameResult::DrawRepetition => "draw_repetition"@,
        GameResult::DrawFiftyMove => "draw_fifty_move"@,
        GameResult::DrawInsufficientMaterial => "draw_insufficient"@,
    }
}

/// The two-letter code of a piece: `w` or `b`, then its letter in upper
/// case (P N B R Q K).
pub open spec fn piece_code(c: Color, k: Piece) -> Seq<char> {
    seq![
        if c == Color::White {
            'w'
        } else {
            'b'
        },
        match k {
            Piece::Pawn => 'P',
            Piece::Knight => 'N',
            Piece::Bishop => 'B',
            Piece::Rook => 'R',
            Piece::Queen => 'Q',
            Piece::King => 'K',
        },
    ]
}

/// `c`'s king stands on `s`.
pub open spec fn king_at(g: GameState, c: Color, s: int) -> bool {
    cell_piece(g.position.bitboards.mailbox@[s]) == Some((c, Piece::King))
}

impl ChessEngine {
    /// A new game from the starting position.
    #[allow(clippy::new_without_default)]
    pub fn new() -> (r: Self)
        ensures
            r.gs.wf(),
            sound(r.gs.position),
            r.gs.history().len() == 0,
            r.gs.result == GameResult::Ongoing,
            r.gs.position.fullmove_count == 1,
    {
        ChessEngine { gs: GameState::new() }
    }

    /// A game from a FEN position (or `startpos`).
    pub fn from_fen(fen: &str) -> (r: ChessEngine)
        requires
            fen_ok(fen@),
        ensures
            r.gs.wf(),
            fen_read(fen@, r.gs.position),
            r.gs.history().len() == 0,
            r.gs.result == GameResult::Ongoing,
    {
        ChessEngine { gs: GameState::from_fen(fen) }
    }

    /// The move the coordinate text `input` describes in the position (its
    /// flag worked out from the pieces; not checked for legality).
    pub fn parse_uci(&self, input: &str) -> (r: Option<ChessMove>)
        ensures
            match text_move(self.gs.position, input.spec_bytes()) {
                Some(m) => r matches Some(cm) && cm.0 == m,
                None => r is None,
            },
    {
        match parse_move_text(&self.gs.position, input) {
            Some(m) => Some(ChessMove(m)),
            None => None,
        }
    }

    /// Whether the side to move is in check.
    pub fn is_in_check(&self) -> (r: bool)
        requires
            self.gs.position.wf(),
            self.gs.position.view().pieces[pidx(self.gs.position.side_to_move.index(), 5)] != 0,
        ensures
            r == attacked(
                self.gs.position.view(),
                king_square(self.gs.position.view(), self.gs.position.side_to_move.index()),
                self.gs.position.side_to_move.other().index(),
            ),
    {
        self.gs.position.is_in_check(self.gs.position.side_to_move)
    }

    /// The name of the game's result.
    pub fn game_result(&self) -> (r: String)
        ensures
            r@ == result_name(self.gs.result),
    {
        match self.gs.result {
            GameResult::Ongoing => "ongoing".to_owned(),
            GameResult::Checkmate(Color::White) => "checkmate_white".to_owned(),
            GameResult::Checkmate(Color::Black) => "checkmate_black".to_owned(),
            GameResult::Stalemate => "stalemate".to_owned(),
            GameResult::DrawRepetition => "draw_repetition".to_owned(),
            GameResult::DrawFiftyMove => "draw_fifty_move".to_owned(),
            GameResult::DrawInsufficientMaterial => "draw_insufficient".to_owned(),
        }
    }

    /// The code of the piece on `square`, such as `wK`, if any.
    pub fn piece_on(&self, square: u8) -> (r: Option<String>)
        requires
            square < 64,
        ensures
            match cell_piece(self.gs.position.bitboards.mailbox@[square as int]) {
                Some((c, k)) => r matches Some(s) && s@ == piece_code(c, k),
                None => r is None,
            },
    {
        match self.gs.position.piece_on(square) {
            Some((color, piece)) => {
                let c = match color {
                    Color::White => 'w',
                    Color::Black => 'b',
                };
                let p = match piece {
                    Piece::Pawn => 'P',
                    Piece::Knight => 'N',
                    Piece::Bishop => 'B',
                    Piece::Rook => 'R',
                    Piece::Queen => 'Q',
                    Piece::King => 'K',
                };
                let mut v: Vec<char> = Vec::new();
                v.push(c);
                v.push(p);
                proof {
                    assert(v@ =~= piece_code(color, piece));
                }
                Some(crate::text::string_from_chars(v))
            },
            None => None,
        }
    }

    /// The side to move: `w` or `b`.
    pub fn side_to_move(&self) -> (r: String)
        ensures
            r@ == (if self.gs.position.side_to_move == Color::White {
                "w"@
            } else {
                "b"@
            }),
    {
        match self.gs.position.side_to_move {
            Color::White => "w".to_owned(),
            Color::Black => "b".to_owned(),
        }
    }

    /// The lowest square holding the king of the side `color` names (`w`
    /// or `b`); `None` for another name or without such a king.
    pub fn king_square(&self, color: &str) -> (r: Option<u8>)
        ensures
            color@ != "w"@ && color@ != "b"@ ==> r is None,
            color@ == "w"@ || color@ == "b"@ ==> {
                let c = if color@ == "w"@ {
                    Color::White
                } else {
                    Color::Black
                };
                match r {
                    Some(s) => s < 64 && king_at(self.gs, c, s as int) && forall|t: int|
                        0 <= t < s ==> !king_at(self.gs, c, t),
                    None => forall|t: int| 0 <= t < 64 ==> !king_at(self.gs, c, t),
                }
            },
    {
        let name = chars_of(color);
        proof {
            reveal_strlit("w");
            reveal_strlit("b");
        }
        let target = if name.len() == 1 && name[0] == 'w' {
            Color::White
        } else if name.len() == 1 && name[0] == 'b' {
            Color::Black
        } else {
            proof {
                assert(color@ != "w"@);
                assert(color@ != "b"@);
            }
            return None;
        };
        proof {
            assert(color@ == "w"@ || color@ == "b"@);
            assert(color@ == "w"@ <==> target == Color::White);
        }
        let mut sq: u8 = 0;
        while sq < 64
            invariant
                sq <= 64,
                forall|t: int| 0 <= t < sq ==> !king_at(self.gs, target, t),
                color@ == "w"@ || color@ == "b"@,
                color@ == "w"@ <==> target == Color::White,
            decreases 64 - sq,
        {
            match self.gs.position.piece_on(sq) {
                Some((c, Piece::King)) => {
                    if c == target {
                        return Some(sq);
                    }
                },
                _ => {},
            }
            sq = sq + 1;
        }
        None
    }

    /// Plays `mv` in the game; refused (with the game's reason) once the
    /// game is over or when the move is not legal.
    pub fn make_move(&mut self, mv: &ChessMove) -> (r: Result<(), &str>)
        requires
            old(self).gs.wf(),
            sound(old(self).gs.position),
            old(self).gs.position.halfmove_clock < u32::MAX - 1,
            old(self).gs.history().len() + 2 < u32::MAX,
        ensures
            final(self).gs.wf(),
            sound(final(self).gs.position),
            old(self).gs.result != GameResult::Ongoing ==> r == Err::<(), &str>("Game already finished")
                && same_game(old(self).gs, final(self).gs),
            old(self).gs.result == GameResult::Ongoing && !legal(old(self).gs.position, mv.0) ==> r == Err::<
                (),
                &str,
            >("Illegal Move") && same_game(old(self).gs, final(self).gs),
            old(self).gs.result == GameResult::Ongoing && legal(old(self).gs.position, mv.0) ==> r is Ok
                && game_made(old(self).gs, mv.0, final(self).gs),
    {
        self.gs.make_move(mv.0)
    }

    /// Takes back the last move, if any.
    pub fn undo_move(&mut self)
        requires
            old(self).gs.wf(),
        ensures
            final(self).gs.wf(),
            old(self).gs.history().len() == 0 ==> same_game(old(self).gs, final(self).gs),
            old(self).gs.history().len() > 0 ==> game_undone(old(self).gs, final(self).gs) && sound(
                final(self).gs.position,
            ),
    {
        self.gs.undo_move();
    }

    /// The legal moves of the position, each once.
    pub fn legal_moves(&mut self) -> (r: Vec<ChessMove>)
        requires
            old(self).gs.position.valid(),
            old(self).gs.position.halfmove_clock < u32::MAX,
        ensures
            forall|m: Move| legal(old(self).gs.position, m) <==> exists|i: int|
                0 <= i < r@.len() && (#[trigger] r@[i]).0 == m,
            forall|i: int, j: int| 0 <= i < j < r@.len() ==> r@[i].0 != r@[j].0,
            final(self).gs.position.view() == old(self).gs.position.view(),
            final(self).gs.position.side_to_move == old(self).gs.position.side_to_move,
            final(self).gs.position.halfmove_clock == old(self).gs.position.halfmove_clock,
            final(self).gs.history == old(self).gs.history,
            final(self).gs.result == old(self).gs.result,
    {
        let moves = self.gs.position.get_legal_moves();
        let mut out: Vec<ChessMove> = Vec::new();
        let mut i: usize = 0;
        while i < moves.len()
            invariant
                i <= moves@.len(),
                out@.len() == i,
                forall|j: int| 0 <= j < i ==> (#[trigger] out@[j]).0 == moves@[j],
            decreases moves.len() - i,
        {
            out.push(ChessMove(moves[i]));
            i = i + 1;
        }
        proof {
            assert forall|m: Move| legal(old(self).gs.position, m) implies exists|i: int|
                0 <= i < out@.len() && (#[trigger] out@[i]).0 == m by {
                assert(moves@.contains(m));
                let k = choose|k: int| 0 <= k < moves@.len() && moves@[k] == m;
                assert(out@[k].0 == m);
            }
            assert forall|i: int, j: int| 0 <= i < j < out@.len() implies out@[i].0 != out@[j].0 by {
                assert(moves@[i] != moves@[j]);
            }
            assert forall|m: Move| (exists|i: int| 0 <= i < out@.len() && (#[trigger] out@[i]).0 == m) implies legal(
                old(self).gs.position,
                m,
            ) by {
                let k = choose|k: int| 0 <= k < out@.len() && (#[trigger] out@[k]).0 == m;
                assert(moves@[k] == m);
                assert(moves@.contains(m));
            }
        }
        out
    }
}

} // verus!

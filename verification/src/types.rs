//! Colors, pieces, squares and moves.
use vstd::prelude::*;

verus! {

/// Names of the 64 squares, a1 = 0 up to h8 = 63, rank by rank.
pub struct Square;

impl Square {
    pub const A1: u8 = 0;
    pub const B1: u8 = 1;
    pub const C1: u8 = 2;
    pub const D1: u8 = 3;
    pub const E1: u8 = 4;
    pub const F1: u8 = 5;
    pub const G1: u8 = 6;
    pub const H1: u8 = 7;
    pub const A2: u8 = 8;
    pub const B2: u8 = 9;
    pub const C2: u8 = 10;
    pub const D2: u8 = 11;
    pub const E2: u8 = 12;
    pub const F2: u8 = 13;
    pub const G2: u8 = 14;
    pub const H2: u8 = 15;
    pub const A3: u8 = 16;
    pub const B3: u8 = 17;
    pub const C3: u8 = 18;
    pub const D3: u8 = 19;
    pub const E3: u8 = 20;
    pub const F3: u8 = 21;
    pub const G3: u8 = 22;
    pub const H3: u8 = 23;
    pub const A4: u8 = 24;
    pub const B4: u8 = 25;
    pub const C4: u8 = 26;
    pub const D4: u8 = 27;
    pub const E4: u8 = 28;
    pub const F4: u8 = 29;
    pub const G4: u8 = 30;
    pub const H4: u8 = 31;
    pub const A5: u8 = 32;
    pub const B5: u8 = 33;
    pub const C5: u8 = 34;
    pub const D5: u8 = 35;
    pub const E5: u8 = 36;
    pub const F5: u8 = 37;
    pub const G5: u8 = 38;
    pub const H5: u8 = 39;
    pub const A6: u8 = 40;
    pub const B6: u8 = 41;
    pub const C6: u8 = 42;
    pub const D6: u8 = 43;
    pub const E6: u8 = 44;
    pub const F6: u8 = 45;
    pub const G6: u8 = 46;
    pub const H6: u8 = 47;
    pub const A7: u8 = 48;
    pub const B7: u8 = 49;
    pub const C7: u8 = 50;
    pub const D7: u8 = 51;
    pub const E7: u8 = 52;
    pub const F7: u8 = 53;
    pub const G7: u8 = 54;
    pub const H7: u8 = 55;
    pub const A8: u8 = 56;
    pub const B8: u8 = 57;
    pub const C8: u8 = 58;
    pub const D8: u8 = 59;
    pub const E8: u8 = 60;
    pub const F8: u8 = 61;
    pub const G8: u8 = 62;
    pub const H8: u8 = 63;
}

#[derive(Clone, Copy, PartialEq, Eq, Debug, Structural)]
pub enum Color {
    White,
    Black,
}

impl Color {
    /// White is 0, Black is 1: the index of the color in the boards.
    pub open spec fn index(self) -> int {
        match self {
            Color::White => 0,
            Color::Black => 1,
        }
    }

    pub open spec fn other(self) -> Color {
        match self {
            Color::White => Color::Black,
            Color::Black => Color::White,
        }
    }

    pub open spec fn from_index(i: int) -> Color {
        if i == 0 {
            Color::White
        } else {
            Color::Black
        }
    }

    pub fn opposite(&self) -> (r: Color)
        ensures
            r == self.other(),
    {
        match self {
            Color::White => Color::Black,
            Color::Black => Color::White,
        }
    }

    pub fn idx(&self) -> (r: usize)
        ensures
            r == self.index(),
            r < 2,
    {
        match self {
            Color::White => 0,
            Color::Black => 1,
        }
    }
}

#[derive(Clone, Copy, PartialEq, Eq, Debug, Structural)]
pub enum Piece {
    Pawn,
    Knight,
    Bishop,
    Rook,
    Queen,
    King,
}

impl Piece {
    /// Pawn 0, Knight 1, Bishop 2, Rook 3, Queen 4, King 5.
    pub open spec fn index(self) -> int {
        match self {
            Piece::Pawn => 0,
            Piece::Knight => 1,
            Piece::Bishop => 2,
            Piece::Rook => 3,
            Piece::Queen => 4,
            Piece::King => 5,
        }
    }

    /// The piece of index `i`; 5 and above are the king.
    pub open spec fn from_index(i: int) -> Piece {
        if i == 0 {
            Piece::Pawn
        } else if i == 1 {
            Piece::Knight
        } else if i == 2 {
            Piece::Bishop
        } else if i == 3 {
            Piece::Rook
        } else if i == 4 {
            Piece::Queen
        } else {
            Piece::King
        }
    }

    pub fn idx(&self) -> (r: usize)
        ensures
            r == self.index(),
            r < 6,
    {
        match self {
            Piece::Pawn => 0,
            Piece::Knight => 1,
            Piece::Bishop => 2,
            Piece::Rook => 3,
            Piece::Queen => 4,
            Piece::King => 5,
        }
    }

    pub fn from_idx(i: u8) -> (r: Piece)
        ensures
            r == Piece::from_index(i as int),
    {
        match i {
            0 => Piece::Pawn,
            1 => Piece::Knight,
            2 => Piece::Bishop,
            3 => Piece::Rook,
            4 => Piece::Queen,
            _ => Piece::King,
        }
    }
}

pub broadcast proof fn lemma_piece_index(p: Piece)
    ensures
        0 <= #[trigger] p.index() < 6,
        Piece::from_index(p.index()) == p,
{
}

pub broadcast proof fn lemma_color_index(c: Color)
    ensures
        0 <= #[trigger] c.index() < 2,
        Color::from_index(c.index()) == c,
        c.other().index() == 1 - c.index(),
        c.other().other() == c,
{
}

#[derive(Clone, Copy, PartialEq, Eq, Debug, Structural)]
pub enum MoveFlag {
    Quiet,
    Capture,
    DoublePawnPush,
    KingCastle,
    QueenCastle,
    EnPassant,
    Promotion,
    PromotionCapture,
}

#[derive(Clone, Copy, PartialEq, Eq, Debug, Structural)]
pub struct Move {
    pub from: u8,
    pub to: u8,
    pub promotion: Option<Piece>,
    pub flag: MoveFlag,
}

impl MoveFlag {
    pub open spec fn is_promo(self) -> bool {
        self == MoveFlag::Promotion || self == MoveFlag::PromotionCapture
    }

    pub open spec fn is_capture_flag(self) -> bool {
        self == MoveFlag::Capture || self == MoveFlag::PromotionCapture || self
            == MoveFlag::EnPassant
    }

    /// Quiet, double push and both castles: the moves that neither capture nor promote.
    pub open spec fn is_quiet_flag(self) -> bool {
        self == MoveFlag::Quiet || self == MoveFlag::DoublePawnPush || self
            == MoveFlag::KingCastle || self == MoveFlag::QueenCastle
    }
}

/// The outcome of a game, or that it goes on.
#[derive(Clone, Copy, PartialEq, Eq, Debug, Structural)]
pub enum GameResult {
    Ongoing,
    Checkmate(Color),
    Stalemate,
    DrawRepetition,
    DrawFiftyMove,
    DrawInsufficientMaterial,
}

/// A move equal to `mv`, with `==` on every field.
pub fn move_eq(a: &Move, b: &Move) -> (r: bool)
    ensures
        r == (*a == *b),
{
    let pe = match (a.promotion, b.promotion) {
        (None, None) => true,
        (Some(x), Some(y)) => x == y,
        _ => false,
    };
    a.from == b.from && a.to == b.to && a.flag == b.flag && pe
}

} // verus!

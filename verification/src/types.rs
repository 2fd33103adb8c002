//! Plain-value chess vocabulary used by the engine: sides, pieces, moves,
//! and the bound kinds stored in the transposition table.
//!
//! Squares are `u8` indices in `0..64`, counted from a1 (0) to h8 (63):
//! the file is `index % 8` and the rank is `index / 8`.  A bitboard is a
//! `u64` whose bit `i` stands for the square with index `i`.
use vstd::prelude::*;

verus! {

/// The side to move.
#[derive(Clone, Copy, PartialEq, Eq, Structural, Debug)]
pub enum Color {
    White,
    Black,
}

impl Color {
    pub open spec fn spec_opponent(self) -> Color {
        match self {
            Color::White => Color::Black,
            Color::Black => Color::White,
        }
    }

    /// The side's table number: 0 for White, 1 for Black.
    pub fn to_index(self) -> (r: usize)
        ensures
            r == (if self == Color::White { 0usize } else { 1usize }),
    {
        match self {
            Color::White => 0,
            Color::Black => 1,
        }
    }

    /// The other side.
    pub fn opponent(self) -> (r: Color)
        ensures
            r == self.spec_opponent(),
    {
        match self {
            Color::White => Color::Black,
            Color::Black => Color::White,
        }
    }
}

/// A kind of chess piece, in the order the move generator numbers them.
#[derive(Clone, Copy, PartialEq, Eq, Structural, Debug)]
pub enum Piece {
    Pawn,
    Knight,
    Bishop,
    Rook,
    Queen,
    King,
}

/// The number a piece kind has in the move generator's tables.
pub open spec fn piece_index(p: Piece) -> nat {
    match p {
        Piece::Pawn => 0,
        Piece::Knight => 1,
        Piece::Bishop => 2,
        Piece::Rook => 3,
        Piece::Queen => 4,
        Piece::King => 5,
    }
}

/// The piece kind with a given table number.
pub open spec fn piece_of_index(i: nat) -> Piece {
    if i == 0 {
        Piece::Pawn
    } else if i == 1 {
        Piece::Knight
    } else if i == 2 {
        Piece::Bishop
    } else if i == 3 {
        Piece::Rook
    } else if i == 4 {
        Piece::Queen
    } else {
        Piece::King
    }
}

/// Lower-case letter of a piece kind, as the move generator prints it.
pub open spec fn piece_letter(p: Piece) -> char {
    match p {
        Piece::Pawn => 'p',
        Piece::Knight => 'n',
        Piece::Bishop => 'b',
        Piece::Rook => 'r',
        Piece::Queen => 'q',
        Piece::King => 'k',
    }
}

/// Upper-case letter of a piece kind.
pub open spec fn piece_letter_upper(p: Piece) -> char {
    match p {
        Piece::Pawn => 'P',
        Piece::Knight => 'N',
        Piece::Bishop => 'B',
        Piece::Rook => 'R',
        Piece::Queen => 'Q',
        Piece::King => 'K',
    }
}

/// Piece letters: each kind has its own lower-case letter, and its
/// upper-case letter is the same letter in upper case.
pub proof fn lemma_piece_letters(p: Piece, q: Piece)
    ensures
        'a' <= piece_letter(p) <= 'z',
        piece_letter_upper(p) as int == piece_letter(p) as int - 32,
        p != q ==> piece_letter(p) != piece_letter(q),
{
}

impl Piece {
    /// The piece's table number.
    pub fn to_index(self) -> (r: usize)
        ensures
            r == piece_index(self),
            r < 6,
    {
        match self {
            Piece::Pawn => 0,
            Piece::Knight => 1,
            Piece::Bishop => 2,
            Piece::Rook => 3,
            Piece::Queen => 4,
            Piece::King => 5,
        }
    }

    /// The piece kind with table number `i`.
    pub fn from_index(i: usize) -> (r: Piece)
        requires
            i < 6,
        ensures
            r == piece_of_index(i as nat),
            piece_index(r) == i,
    {
        if i == 0 {
            Piece::Pawn
        } else if i == 1 {
            Piece::Knight
        } else if i == 2 {
            Piece::Bishop
        } else if i == 3 {
            Piece::Rook
        } else if i == 4 {
            Piece::Queen
        } else {
            Piece::King
        }
    }

    /// Lower-case letter of the piece kind.
    pub fn letter(self) -> (r: char)
        ensures
            r == piece_letter(self),
    {
        match self {
            Piece::Pawn => 'p',
            Piece::Knight => 'n',
            Piece::Bishop => 'b',
            Piece::Rook => 'r',
            Piece::Queen => 'q',
            Piece::King => 'k',
        }
    }

    /// Upper-case letter of the piece kind.
    pub fn letter_upper(self) -> (r: char)
        ensures
            r == piece_letter_upper(self),
    {
        match self {
            Piece::Pawn => 'P',
            Piece::Knight => 'N',
            Piece::Bishop => 'B',
            Piece::Rook => 'R',
            Piece::Queen => 'Q',
            Piece::King => 'K',
        }
    }
}

/// How many pieces a pawn may promote to.
pub const NUM_PROMOTION_PIECES: usize = 4;

/// The promotion pieces, in the order a promoting pawn's moves are produced.
pub open spec fn promotion_piece(i: int) -> Piece {
    if i == 0 {
        Piece::Queen
    } else if i == 1 {
        Piece::Knight
    } else if i == 2 {
        Piece::Rook
    } else {
        Piece::Bishop
    }
}

/// The `i`-th promotion piece.
pub fn promotion_piece_at(i: usize) -> (r: Piece)
    requires
        i < NUM_PROMOTION_PIECES,
    ensures
        r == promotion_piece(i as int),
{
    if i == 0 {
        Piece::Queen
    } else if i == 1 {
        Piece::Knight
    } else if i == 2 {
        Piece::Rook
    } else {
        Piece::Bishop
    }
}

/// A move: from a source square to a destination square, with the piece a
/// pawn becomes when it promotes.
#[derive(Clone, Copy, PartialEq, Eq, Structural, Debug)]
pub struct Move {
    pub source: u8,
    pub dest: u8,
    pub promotion: Option<Piece>,
}

/// Both squares of the move are on the board.
pub open spec fn move_on_board(m: Move) -> bool {
    m.source < 64 && m.dest < 64
}

impl Move {
    /// A move from `source` to `dest`, promoting to `promotion` if given.
    pub fn new(source: u8, dest: u8, promotion: Option<Piece>) -> (r: Move)
        ensures
            r == (Move { source, dest, promotion }),
    {
        Move { source, dest, promotion }
    }

    /// A move built from the numbers the move generator reports: the two
    /// square indices and, for a promotion, the table number of the piece.
    pub fn from_parts(source: u8, dest: u8, promotion_index: Option<usize>) -> (r: Move)
        requires
            promotion_index matches Some(i) ==> i < 6,
        ensures
            r.source == source,
            r.dest == dest,
            r.promotion == (match promotion_index {
                Some(i) => Some(piece_of_index(i as nat)),
                None => None,
            }),
    {
        let promotion = match promotion_index {
            Some(i) => Some(Piece::from_index(i)),
            None => None,
        };
        Move { source, dest, promotion }
    }

    pub fn get_source(&self) -> (r: u8)
        ensures
            r == self.source,
    {
        self.source
    }

    pub fn get_dest(&self) -> (r: u8)
        ensures
            r == self.dest,
    {
        self.dest
    }

    pub fn get_promotion(&self) -> (r: Option<Piece>)
        ensures
            r == self.promotion,
    {
        self.promotion
    }
}

/// What a value stored in the transposition table is known to be.
#[derive(Clone, Copy, PartialEq, Eq, Structural, Debug)]
pub enum Flag {
    /// The stored value is the exact value of the position.
    Exact,
    /// The search failed low: the true value is at most the stored value.
    Upperbound,
    /// The search failed high: the true value is at least the stored value.
    Lowerbound,
}

} // verus!

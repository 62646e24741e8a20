//! Piece identity: a color, a piece kind, and the bijection between the
//! twelve (kind, color) variants, their bitboard indices 0..12 and their
//! single-character FEN letters.

use vstd::prelude::*;

verus! {

/// The side a piece belongs to, or the side to move.
#[derive(Clone, Copy, Debug, PartialEq, Eq, Structural)]
pub enum Color {
    Black,
    White,
}

/// One of the twelve piece variants: a kind parameterized by a color.
#[derive(Clone, Copy, Debug, PartialEq, Eq, Structural)]
pub enum Piece {
    Pawn(Color),
    Knight(Color),
    Bishop(Color),
    Rook(Color),
    Queen(Color),
    King(Color),
}

/// The array index a color maps to: White is 0, Black is 1.
pub open spec fn color_index(c: Color) -> int {
    match c {
        Color::Black => 1,
        Color::White => 0,
    }
}

/// The bitboard index of a piece variant: `2 * kind_rank + color_index`,
/// with kinds ranked Pawn, Knight, Bishop, Rook, Queen, King.
pub open spec fn piece_index(p: Piece) -> int {
    match p {
        Piece::Pawn(c) => 0 + color_index(c),
        Piece::Knight(c) => 2 + color_index(c),
        Piece::Bishop(c) => 4 + color_index(c),
        Piece::Rook(c) => 6 + color_index(c),
        Piece::Queen(c) => 8 + color_index(c),
        Piece::King(c) => 10 + color_index(c),
    }
}

/// The inverse of `piece_index`: the variant at a bitboard index, or `None`
/// outside 0..12.
pub open spec fn piece_from_index(i: int) -> Option<Piece> {
    if i == 0 {
        Some(Piece::Pawn(Color::White))
    } else if i == 1 {
        Some(Piece::Pawn(Color::Black))
    } else if i == 2 {
        Some(Piece::Knight(Color::White))
    } else if i == 3 {
        Some(Piece::Knight(Color::Black))
    } else if i == 4 {
        Some(Piece::Bishop(Color::White))
    } else if i == 5 {
        Some(Piece::Bishop(Color::Black))
    } else if i == 6 {
        Some(Piece::Rook(Color::White))
    } else if i == 7 {
        Some(Piece::Rook(Color::Black))
    } else if i == 8 {
        Some(Piece::Queen(Color::White))
    } else if i == 9 {
        Some(Piece::Queen(Color::Black))
    } else if i == 10 {
        Some(Piece::King(Color::White))
    } else if i == 11 {
        Some(Piece::King(Color::Black))
    } else {
        None
    }
}

/// The FEN letter of a piece variant: P/N/B/R/Q/K, uppercase for White and
/// lowercase for Black.
pub open spec fn piece_char(p: Piece) -> char {
    match p {
        Piece::Pawn(Color::White) => 'P',
        Piece::Pawn(Color::Black) => 'p',
        Piece::Knight(Color::White) => 'N',
        Piece::Knight(Color::Black) => 'n',
        Piece::Bishop(Color::White) => 'B',
        Piece::Bishop(Color::Black) => 'b',
        Piece::Rook(Color::White) => 'R',
        Piece::Rook(Color::Black) => 'r',
        Piece::Queen(Color::White) => 'Q',
        Piece::Queen(Color::Black) => 'q',
        Piece::King(Color::White) => 'K',
        Piece::King(Color::Black) => 'k',
    }
}

/// The inverse of `piece_char`: the variant a FEN letter denotes, or `None`
/// for any other character.
pub open spec fn piece_from_char(c: char) -> Option<Piece> {
    if c == 'P' {
        Some(Piece::Pawn(Color::White))
    } else if c == 'p' {
        Some(Piece::Pawn(Color::Black))
    } else if c == 'N' {
        Some(Piece::Knight(Color::White))
    } else if c == 'n' {
        Some(Piece::Knight(Color::Black))
    } else if c == 'B' {
        Some(Piece::Bishop(Color::White))
    } else if c == 'b' {
        Some(Piece::Bishop(Color::Black))
    } else if c == 'R' {
        Some(Piece::Rook(Color::White))
    } else if c == 'r' {
        Some(Piece::Rook(Color::Black))
    } else if c == 'Q' {
        Some(Piece::Queen(Color::White))
    } else if c == 'q' {
        Some(Piece::Queen(Color::Black))
    } else if c == 'K' {
        Some(Piece::King(Color::White))
    } else if c == 'k' {
        Some(Piece::King(Color::Black))
    } else {
        None
    }
}

impl Color {
    /// The array index this color maps to: White is 0, Black is 1.
    pub fn index(&self) -> (r: usize)
        ensures
            r == color_index(*self),
    {
        match self {
            Color::Black => 1,
            Color::White => 0,
        }
    }
}

impl Piece {
    /// The index of this variant's bitboard within the ordered array of
    /// twelve, always in 0..12.
    pub fn index(&self) -> (r: usize)
        ensures
            r == piece_index(*self),
            r < 12,
    {
        match self {
            Piece::Pawn(color) => 0 + color.index(),
            Piece::Knight(color) => 2 + color.index(),
            Piece::Bishop(color) => 4 + color.index(),
            Piece::Rook(color) => 6 + color.index(),
            Piece::Queen(color) => 8 + color.index(),
            Piece::King(color) => 10 + color.index(),
        }
    }

    /// The FEN letter of this variant as a one-character string.
    pub fn fen(&self) -> (r: String)
        ensures
            r@ == seq![piece_char(*self)],
    {
        proof {
            reveal_strlit("P");
            reveal_strlit("p");
            reveal_strlit("N");
            reveal_strlit("n");
            reveal_strlit("B");
            reveal_strlit("b");
            reveal_strlit("R");
            reveal_strlit("r");
            reveal_strlit("Q");
            reveal_strlit("q");
            reveal_strlit("K");
            reveal_strlit("k");
        }
        let s: &str = match self {
            Piece::Pawn(Color::White) => "P",
            Piece::Pawn(Color::Black) => "p",
            Piece::Knight(Color::White) => "N",
            Piece::Knight(Color::Black) => "n",
            Piece::Bishop(Color::White) => "B",
            Piece::Bishop(Color::Black) => "b",
            Piece::Rook(Color::White) => "R",
            Piece::Rook(Color::Black) => "r",
            Piece::Queen(Color::White) => "Q",
            Piece::Queen(Color::Black) => "q",
            Piece::King(Color::White) => "K",
            Piece::King(Color::Black) => "k",
        };
        proof {
            assert(s@ =~= seq![piece_char(*self)]);
        }
        String::from_str(s)
    }

    /// The variant whose bitboard index is `index`, or `None` outside 0..12.
    pub fn from_index(index: usize) -> (r: Option<Self>)
        ensures
            r == piece_from_index(index as int),
    {
        match index {
            0 => Some(Piece::Pawn(Color::White)),
            1 => Some(Piece::Pawn(Color::Black)),
            2 => Some(Piece::Knight(Color::White)),
            3 => Some(Piece::Knight(Color::Black)),
            4 => Some(Piece::Bishop(Color::White)),
            5 => Some(Piece::Bishop(Color::Black)),
            6 => Some(Piece::Rook(Color::White)),
            7 => Some(Piece::Rook(Color::Black)),
            8 => Some(Piece::Queen(Color::White)),
            9 => Some(Piece::Queen(Color::Black)),
            10 => Some(Piece::King(Color::White)),
            11 => Some(Piece::King(Color::Black)),
            _ => None,
        }
    }

    /// The variant a FEN letter denotes, or `None` for any other character.
    pub fn from_char(char: char) -> (r: Option<Self>)
        ensures
            r == piece_from_char(char),
    {
        match char {
            'P' => Some(Piece::Pawn(Color::White)),
            'p' => Some(Piece::Pawn(Color::Black)),
            'N' => Some(Piece::Knight(Color::White)),
            'n' => Some(Piece::Knight(Color::Black)),
            'B' => Some(Piece::Bishop(Color::White)),
            'b' => Some(Piece::Bishop(Color::Black)),
            'R' => Some(Piece::Rook(Color::White)),
            'r' => Some(Piece::Rook(Color::Black)),
            'Q' => Some(Piece::Queen(Color::White)),
            'q' => Some(Piece::Queen(Color::Black)),
            'K' => Some(Piece::King(Color::White)),
            'k' => Some(Piece::King(Color::Black)),
            _ => None,
        }
    }
}

/// The piece index and its inverse form a bijection: every index 0..12 is
/// recovered from its variant, and every variant from its index.
pub proof fn lemma_piece_index_bijection()
    ensures
        forall|i: int| 0 <= i < 12 ==> piece_index(#[trigger] piece_from_index(i)->Some_0) == i,
        forall|i: int| 0 <= i < 12 ==> #[trigger] piece_from_index(i) is Some,
        forall|p: Piece| #[trigger] piece_from_index(piece_index(p)) == Some(p),
{
}

/// The piece letter and its inverse form a bijection: every variant is
/// recovered from its FEN letter.
pub proof fn lemma_piece_char_bijection()
    ensures
        forall|p: Piece| #[trigger] piece_from_char(piece_char(p)) == Some(p),
        forall|c: char| (#[trigger] piece_from_char(c)) is Some ==> piece_char(piece_from_char(c)->Some_0) == c,
{
}

} // verus!

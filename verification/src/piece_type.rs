use vstd::prelude::*;

verus! {

/// One of the two piece colors.
#[derive(Clone, Copy, PartialEq, Eq, Structural, Debug, Hash)]
pub enum PieceType {
    Black,
    White,
}

impl PieceType {
    /// The opposite color.
    pub open spec fn spec_change(self) -> PieceType {
        match self {
            PieceType::Black => PieceType::White,
            PieceType::White => PieceType::Black,
        }
    }

    /// Returns the opposite color.
    pub fn change(self) -> (r: PieceType)
        ensures
            r == self.spec_change(),
    {
        match self {
            PieceType::Black => PieceType::White,
            PieceType::White => PieceType::Black,
        }
    }

    /// The glyph that displays this color: a filled circle for black, an
    /// open circle for white.
    pub open spec fn spec_glyph(self) -> char {
        match self {
            PieceType::Black => '\u{25cf}',
            PieceType::White => '\u{25cb}',
        }
    }

    /// Returns the display glyph of this color.
    pub fn glyph(self) -> (c: char)
        ensures
            c == self.spec_glyph(),
    {
        match self {
            PieceType::Black => '\u{25cf}',
            PieceType::White => '\u{25cb}',
        }
    }
}

} // verus!

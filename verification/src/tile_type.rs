use vstd::prelude::*;
use crate::piece_type::PieceType;

verus! {

/// The content of one board cell: occupied by a piece, an empty playable
/// square inside the play area, or part of the border ring that surrounds
/// the play area and is permanently unplayable.
#[derive(Clone, Copy, PartialEq, Eq, Structural, Debug)]
pub enum TileType {
    Piece(PieceType),
    Square,
    Border,
}

impl TileType {
    /// Whether this cell holds a piece of either color.
    pub open spec fn is_occupied(self) -> bool {
        self matches TileType::Piece(_)
    }

    /// The glyph that displays this cell: the color's glyph for a piece, a
    /// blank for a playable square, a cross for a border cell.
    pub open spec fn spec_glyph(self) -> char {
        match self {
            TileType::Piece(p) => p.spec_glyph(),
            TileType::Square => ' ',
            TileType::Border => '\u{d7}',
        }
    }

    /// Returns the display glyph of this cell.
    pub fn glyph(self) -> (c: char)
        ensures
            c == self.spec_glyph(),
    {
        match self {
            TileType::Piece(p) => p.glyph(),
            TileType::Square => ' ',
            TileType::Border => '\u{d7}',
        }
    }

    /// The cell content a display glyph stands for, if it is a glyph at all.
    pub open spec fn spec_from_glyph(c: char) -> Option<TileType> {
        if c == PieceType::Black.spec_glyph() {
            Some(TileType::Piece(PieceType::Black))
        } else if c == PieceType::White.spec_glyph() {
            Some(TileType::Piece(PieceType::White))
        } else if c == ' ' {
            Some(TileType::Square)
        } else if c == '\u{d7}' {
            Some(TileType::Border)
        } else {
            None
        }
    }

    /// Parses one display glyph back into the cell content it stands for.
    pub fn from_glyph(c: char) -> (r: Option<TileType>)
        ensures
            r == TileType::spec_from_glyph(c),
    {
        if c == '\u{25cf}' {
            Some(TileType::Piece(PieceType::Black))
        } else if c == '\u{25cb}' {
            Some(TileType::Piece(PieceType::White))
        } else if c == ' ' {
            Some(TileType::Square)
        } else if c == '\u{d7}' {
            Some(TileType::Border)
        } else {
            None
        }
    }
}

/// Each cell's glyph parses back to exactly that cell: the four glyphs are
/// pairwise distinct.
pub proof fn lemma_glyph_round_trip(t: TileType)
    ensures
        TileType::spec_from_glyph(t.spec_glyph()) == Some(t),
{
}

} // verus!

use vstd::prelude::*;
use crate::piece_type::PieceType;
use crate::tile_type::TileType;

verus! {

/// How many cells of the sequence hold a piece of color `p`.
pub open spec fn count_color(s: Seq<TileType>, p: PieceType) -> nat
    decreases s.len(),
{
    if s.len() == 0 {
        0
    } else {
        count_color(s.drop_last(), p) + if s.last() == TileType::Piece(p) {
            1nat
        } else {
            0nat
        }
    }
}

/// How many cells of the sequence hold a piece of either color.
pub open spec fn count_occupied(s: Seq<TileType>) -> nat
    decreases s.len(),
{
    if s.len() == 0 {
        0
    } else {
        count_occupied(s.drop_last()) + if s.last().is_occupied() {
            1nat
        } else {
            0nat
        }
    }
}

/// Whether the sequence holds at least one playable square.
pub open spec fn has_square(s: Seq<TileType>) -> bool {
    exists|i: int| 0 <= i < s.len() && s[i] == TileType::Square
}

/// Extending a prefix by one cell raises its color count by one exactly
/// when the new cell holds a piece of that color.
pub proof fn lemma_count_color_take_step(s: Seq<TileType>, i: int, p: PieceType)
    requires
        0 <= i < s.len(),
    ensures
        count_color(s.take(i + 1), p) == count_color(s.take(i), p) + if s[i] == TileType::Piece(p) {
            1nat
        } else {
            0nat
        },
{
    assert(s.take(i + 1).drop_last() =~= s.take(i));
    assert(s.take(i + 1).last() == s[i]);
}

/// A color count never exceeds the length of the sequence.
pub proof fn lemma_count_color_bound(s: Seq<TileType>, p: PieceType)
    ensures
        count_color(s, p) <= s.len(),
    decreases s.len(),
{
    if s.len() > 0 {
        lemma_count_color_bound(s.drop_last(), p);
    }
}

/// A prefix never holds more pieces of a color than the whole sequence.
pub proof fn lemma_count_color_take_le(s: Seq<TileType>, i: int, p: PieceType)
    requires
        0 <= i <= s.len(),
    ensures
        count_color(s.take(i), p) <= count_color(s, p),
    decreases s.len() - i,
{
    if i == s.len() {
        assert(s.take(i) =~= s);
    } else {
        lemma_count_color_take_step(s, i, p);
        lemma_count_color_take_le(s, i + 1, p);
    }
}

/// Two sequences whose cells are occupied at exactly the same positions
/// hold the same number of pieces.
pub proof fn lemma_count_occupied_congruent(s1: Seq<TileType>, s2: Seq<TileType>)
    requires
        s1.len() == s2.len(),
        forall|i: int| 0 <= i < s1.len() ==> s1[i].is_occupied() == #[trigger] s2[i].is_occupied(),
    ensures
        count_occupied(s1) == count_occupied(s2),
    decreases s1.len(),
{
    if s1.len() > 0 {
        assert(s1.last().is_occupied() == s2.last().is_occupied());
        lemma_count_occupied_congruent(s1.drop_last(), s2.drop_last());
    }
}

/// Turning exactly one unoccupied cell into a piece, while every other
/// cell keeps its occupancy, raises the occupied count by exactly one.
pub proof fn lemma_count_occupied_one_more(s1: Seq<TileType>, s2: Seq<TileType>, j: int)
    requires
        s1.len() == s2.len(),
        0 <= j < s1.len(),
        !s1[j].is_occupied(),
        s2[j].is_occupied(),
        forall|i: int| 0 <= i < s1.len() && i != j ==> s1[i].is_occupied() == #[trigger] s2[i].is_occupied(),
    ensures
        count_occupied(s2) == count_occupied(s1) + 1,
    decreases s1.len(),
{
    if j == s1.len() - 1 {
        lemma_count_occupied_congruent(s1.drop_last(), s2.drop_last());
    } else {
        assert(s1.last().is_occupied() == s2.last().is_occupied());
        lemma_count_occupied_one_more(s1.drop_last(), s2.drop_last(), j);
    }
}

} // verus!

use vstd::prelude::*;
use crate::cell_count::{count_color, count_occupied, has_square};
use crate::cell_count::{lemma_count_color_bound, lemma_count_color_take_le,
    lemma_count_color_take_step, lemma_count_occupied_one_more};
use crate::piece_type::PieceType;
use crate::point::Point;
use crate::tile::{Tile, spec_init_at, grid_index, lemma_grid_index_bounds,
    lemma_grid_index_decompose};
use crate::tile_type::TileType;

verus! {

/// Whether (dx, dy) is one of the eight compass directions.
pub open spec fn is_dir(dx: int, dy: int) -> bool {
    -1 <= dx <= 1 && -1 <= dy <= 1 && !(dx == 0 && dy == 0)
}

/// Whether position k of the list is the end of a captured prefix for p:
/// every earlier entry holds the opponent's color, at least one such
/// entry exists, and entry k holds p's own color.
pub open spec fn flip_prefix_ok(line: Seq<(Point, PieceType)>, p: PieceType, k: int) -> bool {
    &&& 1 <= k < line.len()
    &&& line[k].1 == p
    &&& forall|j: int| 0 <= j < k ==> (#[trigger] line[j]).1 == p.spec_change()
}

/// Whether the list starts with a captured prefix for p.
pub open spec fn has_flip_prefix(line: Seq<(Point, PieceType)>, p: PieceType) -> bool {
    exists|k: int| #[trigger] flip_prefix_ok(line, p, k)
}

/// The captured prefix of the list for p: the run of opposing entries
/// before the first entry of p's own color, or the empty list when the
/// list starts with p's color or never reaches it.
pub open spec fn spec_flip_prefix(line: Seq<(Point, PieceType)>, p: PieceType) -> Seq<
    (Point, PieceType),
> {
    if has_flip_prefix(line, p) {
        line.take(choose|k: int| flip_prefix_ok(line, p, k))
    } else {
        Seq::empty()
    }
}

/// Only one position can end the captured prefix: the first entry of p's
/// own color.
pub proof fn lemma_flip_prefix_unique(line: Seq<(Point, PieceType)>, p: PieceType, k1: int, k2: int)
    requires
        flip_prefix_ok(line, p, k1),
        flip_prefix_ok(line, p, k2),
    ensures
        k1 == k2,
{
    if k1 < k2 {
        assert(line[k1].1 == p.spec_change());
    }
    if k2 < k1 {
        assert(line[k2].1 == p.spec_change());
    }
}

/// The horizontal step of the d-th compass direction, in the scanning
/// order of the capture search.
pub open spec fn dir_dx(d: int) -> int {
    if d == 0 { -1 } else if d == 1 { -1 } else if d == 2 { -1 }
    else if d == 3 { 0 } else if d == 4 { 0 }
    else if d == 5 { 1 } else if d == 6 { 1 } else { 1 }
}

/// The vertical step of the d-th compass direction.
pub open spec fn dir_dy(d: int) -> int {
    if d == 0 { -1 } else if d == 1 { 0 } else if d == 2 { 1 }
    else if d == 3 { -1 } else if d == 4 { 1 }
    else if d == 5 { -1 } else if d == 6 { 0 } else { 1 }
}

/// The eight compass directions are exactly the directions numbered 0 to
/// 7.
pub proof fn lemma_dir_enumeration(dx: int, dy: int)
    requires
        is_dir(dx, dy),
    ensures
        exists|d: int| 0 <= d < 8 && dir_dx(d) == dx && dir_dy(d) == dy,
{
    if dx == -1 && dy == -1 {
        assert(dir_dx(0) == dx && dir_dy(0) == dy);
    } else if dx == -1 && dy == 0 {
        assert(dir_dx(1) == dx && dir_dy(1) == dy);
    } else if dx == -1 && dy == 1 {
        assert(dir_dx(2) == dx && dir_dy(2) == dy);
    } else if dx == 0 && dy == -1 {
        assert(dir_dx(3) == dx && dir_dy(3) == dy);
    } else if dx == 0 && dy == 1 {
        assert(dir_dx(4) == dx && dir_dy(4) == dy);
    } else if dx == 1 && dy == -1 {
        assert(dir_dx(5) == dx && dir_dy(5) == dy);
    } else if dx == 1 && dy == 0 {
        assert(dir_dx(6) == dx && dir_dy(6) == dy);
    } else {
        assert(dir_dx(7) == dx && dir_dy(7) == dy);
    }
}

/// The step pair of each numbered direction, as machine integers.
fn dir_offset(d: usize) -> (r: (isize, isize))
    requires
        d < 8,
    ensures
        r.0 as int == dir_dx(d as int),
        r.1 as int == dir_dy(d as int),
        is_dir(dir_dx(d as int), dir_dy(d as int)),
{
    match d {
        0 => (-1, -1),
        1 => (-1, 0),
        2 => (-1, 1),
        3 => (0, -1),
        4 => (0, 1),
        5 => (1, -1),
        6 => (1, 0),
        _ => (1, 1),
    }
}

/// Whether some entry of the list is the coordinate (xi, yi).
pub open spec fn contains_point(pts: Seq<Point>, xi: int, yi: int) -> bool {
    exists|j: int|
        0 <= j < pts.len() && (#[trigger] pts[j]).x as int == xi && pts[j].y as int == yi
}

/// The coordinates of the captured prefix of a line: the cells that
/// placing p at the line's origin flips in that direction.
pub open spec fn flip_points(line: Seq<(Point, PieceType)>, p: PieceType) -> Seq<Point> {
    spec_flip_prefix(line, p).map(|j: int, e: (Point, PieceType)| e.0)
}

/// Whether (xi, yi) is flipped by one of the first k listed lines.
pub open spec fn flipped_by(
    lines: Seq<Vec<(Point, PieceType)>>,
    p: PieceType,
    k: int,
    xi: int,
    yi: int,
) -> bool {
    exists|kk: int|
        0 <= kk < k && contains_point(flip_points((#[trigger] lines[kk])@, p), xi, yi)
}

/// Adding one prefix of the list extends the flipped set by exactly that
/// line's flip points.
pub proof fn lemma_flipped_by_step(
    lines: Seq<Vec<(Point, PieceType)>>,
    p: PieceType,
    k: int,
    xi: int,
    yi: int,
)
    requires
        0 <= k < lines.len(),
    ensures
        flipped_by(lines, p, k + 1, xi, yi) <==> (flipped_by(lines, p, k, xi, yi)
            || contains_point(flip_points(lines[k]@, p), xi, yi)),
{
    if flipped_by(lines, p, k + 1, xi, yi) {
        let kk = choose|kk: int|
            0 <= kk < k + 1 && contains_point(flip_points((#[trigger] lines[kk])@, p), xi, yi);
        if kk < k {
            assert(contains_point(flip_points(lines[kk]@, p), xi, yi));
        }
    }
    if flipped_by(lines, p, k, xi, yi) {
        let kk = choose|kk: int|
            0 <= kk < k && contains_point(flip_points((#[trigger] lines[kk])@, p), xi, yi);
        assert(0 <= kk < k + 1 && contains_point(flip_points(lines[kk]@, p), xi, yi));
    }
    if contains_point(flip_points(lines[k]@, p), xi, yi) {
        assert(0 <= k < k + 1 && contains_point(flip_points(lines[k]@, p), xi, yi));
    }
}

/// An Othello board: the cell grid together with the play-area extents.
pub struct Board {
    pub tiles: Tile,
    pub x_size: usize,
    pub y_size: usize,
}

impl Board {
    /// Well-formedness: the grid is well formed and records the same
    /// play-area extents as the board.
    pub open spec fn wf(self) -> bool {
        &&& self.tiles.wf()
        &&& self.tiles.x_size == self.x_size
        &&& self.tiles.y_size == self.y_size
    }

    /// The content of the cell at (x, y); border outside the grid.
    pub open spec fn tile_at(self, x: int, y: int) -> TileType {
        self.tiles.tile_at(x, y)
    }

    /// The cell i steps away from (x, y) in direction (dx, dy).
    pub open spec fn ray(self, x: int, y: int, dx: int, dy: int, i: int) -> TileType {
        self.tile_at(x + i * dx, y + i * dy)
    }

    /// Whether the n cells next to (x, y) in direction (dx, dy) all hold
    /// the opponent of p and the cell right after them holds p itself:
    /// the run of n opposing pieces is then captured by placing p at
    /// (x, y).
    #[verifier::opaque]
    pub open spec fn run_to(
        self,
        p: PieceType,
        x: int,
        y: int,
        dx: int,
        dy: int,
        n: int,
    ) -> bool {
        &&& 1 <= n
        &&& forall|i: int|
            1 <= i <= n ==> #[trigger] self.ray(x, y, dx, dy, i) == TileType::Piece(
                p.spec_change(),
            )
        &&& self.ray(x, y, dx, dy, n + 1) == TileType::Piece(p)
    }

    /// Whether placing p at (x, y) captures a non-empty run in direction
    /// (dx, dy).
    pub open spec fn captures_in_dir(
        self,
        p: PieceType,
        x: int,
        y: int,
        dx: int,
        dy: int,
    ) -> bool {
        exists|n: int| #[trigger] self.run_to(p, x, y, dx, dy, n)
    }

    /// Whether some neighbor of (x, y) holds a piece of either color.
    pub open spec fn spec_next_to(self, x: int, y: int) -> bool {
        exists|dx: int, dy: int|
            is_dir(dx, dy) && (#[trigger] self.ray(x, y, dx, dy, 1)).is_occupied()
    }

    /// Whether p may be placed at (x, y): the cell is a playable square
    /// and at least one direction yields a captured run.
    pub open spec fn spec_can_put(self, p: PieceType, x: int, y: int) -> bool {
        &&& self.tile_at(x, y) == TileType::Square
        &&& exists|dx: int, dy: int|
            is_dir(dx, dy) && #[trigger] self.captures_in_dir(p, x, y, dx, dy)
    }

    /// Whether the cell i steps from (x, y) in direction (dx, dy) belongs
    /// to the run captured in that direction.
    pub open spec fn spec_captured_in_dir(
        self,
        p: PieceType,
        x: int,
        y: int,
        dx: int,
        dy: int,
        i: int,
    ) -> bool {
        &&& 1 <= i
        &&& exists|n: int| i <= n && #[trigger] self.run_to(p, x, y, dx, dy, n)
    }

    /// Whether the cell (xi, yi) belongs to the run captured in
    /// direction (dx, dy) by placing p at (x, y).
    pub open spec fn spec_captured_cell_in(
        self,
        p: PieceType,
        x: int,
        y: int,
        dx: int,
        dy: int,
        xi: int,
        yi: int,
    ) -> bool {
        exists|i: int|
            xi == x + i * dx && yi == y + i * dy && #[trigger] self.spec_captured_in_dir(
                p,
                x,
                y,
                dx,
                dy,
                i,
            )
    }

    /// Whether the cell (xi, yi) belongs to a run captured by placing p
    /// at (x, y), in any direction.
    pub open spec fn spec_captured(self, p: PieceType, x: int, y: int, xi: int, yi: int) -> bool {
        exists|dx: int, dy: int|
            is_dir(dx, dy) && #[trigger] self.spec_captured_cell_in(p, x, y, dx, dy, xi, yi)
    }

    /// The content of the cell (xi, yi) after p is legally placed at
    /// (x, y): the placed piece there, the placing color on every
    /// captured cell, everything else unchanged.
    pub open spec fn spec_put_at(
        self,
        p: PieceType,
        x: int,
        y: int,
        xi: int,
        yi: int,
    ) -> TileType {
        if xi == x && yi == y {
            TileType::Piece(p)
        } else if self.spec_captured(p, x, y, xi, yi) {
            TileType::Piece(p)
        } else {
            self.tile_at(xi, yi)
        }
    }

    /// Whether the game is over: no playable square remains, or at most
    /// one color is on the board.
    pub open spec fn spec_is_end(self) -> bool {
        ||| !has_square(self.tiles.tiles@)
        ||| count_color(self.tiles.tiles@, PieceType::White) == 0
        ||| count_color(self.tiles.tiles@, PieceType::Black) == 0
    }

    /// Builds a board whose play area has the given extents, with the
    /// four standard opening pieces around the center.  The extents must
    /// be at least 2 so that the opening pieces fit in the play area, and
    /// small enough that the grid fits in memory.
    pub fn new(x_size: usize, y_size: usize) -> (r: Board)
        requires
            2 <= x_size,
            2 <= y_size,
            (x_size + 2) * (y_size + 2) <= usize::MAX,
        ensures
            r.wf(),
            r.x_size == x_size,
            r.y_size == y_size,
            forall|x: int, y: int| #[trigger]
                r.tile_at(x, y) == spec_init_at(x_size as int, y_size as int, x, y),
    {
        Board { tiles: Tile::new(x_size, y_size), x_size, y_size }
    }

    /// Whether the cell at the coordinate is a playable square.
    pub fn is_square(&self, point: &Point) -> (r: bool)
        requires
            self.wf(),
        ensures
            r == (self.tile_at(point.x as int, point.y as int) == TileType::Square),
    {
        matches!(self.tiles.get_tile(point.x, point.y), TileType::Square)
    }

    /// Whether some of the eight neighbors of (x, y) holds a piece.
    pub fn is_next_to_piece(&self, x: usize, y: usize) -> (r: bool)
        requires
            self.wf(),
            1 <= x <= self.x_size,
            1 <= y <= self.y_size,
        ensures
            r == self.spec_next_to(x as int, y as int),
    {
        proof {
            self.tiles.lemma_sizes_fit();
        }
        let t0 = self.tiles.get_tile(x - 1, y - 1);
        let t1 = self.tiles.get_tile(x, y - 1);
        let t2 = self.tiles.get_tile(x + 1, y - 1);
        let t3 = self.tiles.get_tile(x - 1, y);
        let t4 = self.tiles.get_tile(x + 1, y);
        let t5 = self.tiles.get_tile(x - 1, y + 1);
        let t6 = self.tiles.get_tile(x, y + 1);
        let t7 = self.tiles.get_tile(x + 1, y + 1);
        let found = matches!(t0, TileType::Piece(_)) || matches!(t1, TileType::Piece(_))
            || matches!(t2, TileType::Piece(_)) || matches!(t3, TileType::Piece(_))
            || matches!(t4, TileType::Piece(_)) || matches!(t5, TileType::Piece(_))
            || matches!(t6, TileType::Piece(_)) || matches!(t7, TileType::Piece(_));
        proof {
            let xi = x as int;
            let yi = y as int;
            if found {
                if t0.is_occupied() {
                    assert(self.ray(xi, yi, -1, -1, 1).is_occupied());
                } else if t1.is_occupied() {
                    assert(self.ray(xi, yi, 0, -1, 1).is_occupied());
                } else if t2.is_occupied() {
                    assert(self.ray(xi, yi, 1, -1, 1).is_occupied());
                } else if t3.is_occupied() {
                    assert(self.ray(xi, yi, -1, 0, 1).is_occupied());
                } else if t4.is_occupied() {
                    assert(self.ray(xi, yi, 1, 0, 1).is_occupied());
                } else if t5.is_occupied() {
                    assert(self.ray(xi, yi, -1, 1, 1).is_occupied());
                } else if t6.is_occupied() {
                    assert(self.ray(xi, yi, 0, 1, 1).is_occupied());
                } else {
                    assert(self.ray(xi, yi, 1, 1, 1).is_occupied());
                }
            } else {
                assert forall|dx: int, dy: int|
                    is_dir(dx, dy) implies !(#[trigger] self.ray(xi, yi, dx, dy, 1)).is_occupied()
                by {
                    assert(self.ray(xi, yi, dx, dy, 1) == self.tile_at(xi + dx, yi + dy));
                }
            }
        }
        found
    }

    /// Whether no playable square remains anywhere on the board.
    pub fn is_end_nosquare(&self) -> (r: bool)
        requires
            self.wf(),
        ensures
            r == !has_square(self.tiles.tiles@),
    {
        let s = Ghost(self.tiles.tiles@);
        let mut it = self.tiles.iter_tile();
        loop
            invariant
                self.wf(),
                s@ == self.tiles.tiles@,
                it.wf(),
                it.tile == &self.tiles,
                0 <= it.pos() <= self.tiles.area(),
                forall|j: int| 0 <= j < it.pos() ==> s@[j] != TileType::Square,
            ensures
                it.pos() == self.tiles.area(),
                forall|j: int| 0 <= j < it.pos() ==> s@[j] != TileType::Square,
            decreases self.tiles.area() - it.pos(),
        {
            match it.next() {
                Some(t) => {
                    if matches!(t, TileType::Square) {
                        return false;
                    }
                },
                None => { break; },
            }
        }
        true
    }

    /// Whether the pieces on the board are all of one color (or the board
    /// holds no piece at all).
    pub fn is_end_one_color(&self) -> (r: bool)
        requires
            self.wf(),
        ensures
            r == (count_color(self.tiles.tiles@, PieceType::White) == 0 || count_color(
                self.tiles.tiles@,
                PieceType::Black,
            ) == 0),
    {
        let s = Ghost(self.tiles.tiles@);
        let mut white_count: usize = 0;
        let mut black_count: usize = 0;
        let mut it = self.tiles.iter_tile();
        loop
            invariant
                self.wf(),
                s@ == self.tiles.tiles@,
                it.wf(),
                it.tile == &self.tiles,
                0 <= it.pos() <= self.tiles.area(),
                white_count == count_color(s@.take(it.pos()), PieceType::White),
                black_count == count_color(s@.take(it.pos()), PieceType::Black),
                white_count == 0 || black_count == 0,
            ensures
                it.pos() == self.tiles.area(),
                white_count == count_color(s@.take(it.pos()), PieceType::White),
                black_count == count_color(s@.take(it.pos()), PieceType::Black),
                white_count == 0 || black_count == 0,
            decreases self.tiles.area() - it.pos(),
        {
            let ghost p = it.pos();
            match it.next() {
                Some(t) => {
                    proof {
                        self.tiles.lemma_sizes_fit();
                        lemma_count_color_take_step(s@, p, PieceType::White);
                        lemma_count_color_take_step(s@, p, PieceType::Black);
                        lemma_count_color_bound(s@.take(p), PieceType::White);
                        lemma_count_color_bound(s@.take(p), PieceType::Black);
                    }
                    match t {
                        TileType::Piece(PieceType::White) => { white_count = white_count + 1; },
                        TileType::Piece(PieceType::Black) => { black_count = black_count + 1; },
                        _ => {},
                    }
                    if white_count != 0 && black_count != 0 {
                        proof {
                            lemma_count_color_take_le(s@, p + 1, PieceType::White);
                            lemma_count_color_take_le(s@, p + 1, PieceType::Black);
                        }
                        return false;
                    }
                },
                None => { break; },
            }
        }
        proof {
            assert(s@.take(self.tiles.area()) =~= s@);
        }
        true
    }

    /// Whether the game is over: either no playable square remains, or at
    /// most one color is on the board.  A position where both players
    /// merely lack a legal move is not an end by itself; the caller
    /// handles that with skip detection.
    pub fn is_end(&self) -> (r: bool)
        requires
            self.wf(),
        ensures
            r == self.spec_is_end(),
    {
        self.is_end_nosquare() || self.is_end_one_color()
    }

    /// Counts the pieces of each color and returns the color with
    /// strictly more pieces on the board, or nothing on a tie.
    pub fn get_winner(&self) -> (r: Option<PieceType>)
        requires
            self.wf(),
        ensures
            ({
                let w = count_color(self.tiles.tiles@, PieceType::White);
                let b = count_color(self.tiles.tiles@, PieceType::Black);
                r == if w > b {
                    Some(PieceType::White)
                } else if b > w {
                    Some(PieceType::Black)
                } else {
                    None::<PieceType>
                }
            }),
    {
        let s = Ghost(self.tiles.tiles@);
        let mut white_count: usize = 0;
        let mut black_count: usize = 0;
        let mut it = self.tiles.iter_tile();
        loop
            invariant
                self.wf(),
                s@ == self.tiles.tiles@,
                it.wf(),
                it.tile == &self.tiles,
                0 <= it.pos() <= self.tiles.area(),
                white_count == count_color(s@.take(it.pos()), PieceType::White),
                black_count == count_color(s@.take(it.pos()), PieceType::Black),
            ensures
                it.pos() == self.tiles.area(),
                white_count == count_color(s@.take(it.pos()), PieceType::White),
                black_count == count_color(s@.take(it.pos()), PieceType::Black),
            decreases self.tiles.area() - it.pos(),
        {
            let ghost p = it.pos();
            match it.next() {
                Some(t) => {
                    proof {
                        self.tiles.lemma_sizes_fit();
                        lemma_count_color_take_step(s@, p, PieceType::White);
                        lemma_count_color_take_step(s@, p, PieceType::Black);
                        lemma_count_color_bound(s@.take(p), PieceType::White);
                        lemma_count_color_bound(s@.take(p), PieceType::Black);
                    }
                    match t {
                        TileType::Piece(PieceType::White) => { white_count = white_count + 1; },
                        TileType::Piece(PieceType::Black) => { black_count = black_count + 1; },
                        _ => {},
                    }
                },
                None => { break; },
            }
        }
        proof {
            assert(s@.take(self.tiles.area()) =~= s@);
        }
        if white_count > black_count {
            Some(PieceType::White)
        } else if black_count > white_count {
            Some(PieceType::Black)
        } else {
            None
        }
    }

    /// Whether the list is exactly the maximal run of occupied cells
    /// that starts one step from (x, y) in direction (dx, dy): entry i
    /// records the coordinate and color of the piece i + 1 steps out, and
    /// the cell right after the run holds no piece.
    #[verifier::opaque]
    pub open spec fn line_ok(
        self,
        x: int,
        y: int,
        dx: int,
        dy: int,
        line: Seq<(Point, PieceType)>,
    ) -> bool {
        &&& forall|i: int|
            0 <= i < line.len() ==> #[trigger] self.ray(x, y, dx, dy, i + 1) == TileType::Piece(
                line[i].1,
            )
        &&& forall|i: int|
            0 <= i < line.len() ==> (#[trigger] line[i]).0.x as int == x + (i + 1) * dx && line[
                i
            ].0.y as int == y + (i + 1) * dy
        &&& !self.ray(x, y, dx, dy, line.len() as int + 1).is_occupied()
    }

    /// Whether the list is the extracted line of the dd-th compass
    /// direction and placing p at (x, y) captures in that direction.
    pub open spec fn line_for_dir(
        self,
        p: PieceType,
        x: int,
        y: int,
        dd: int,
        line: Seq<(Point, PieceType)>,
    ) -> bool {
        &&& 0 <= dd < 8
        &&& self.line_ok(x, y, dir_dx(dd), dir_dy(dd), line)
        &&& self.captures_in_dir(p, x, y, dir_dx(dd), dir_dy(dd))
    }

    /// Whether the list is the extracted line of some compass direction
    /// in which placing p at (x, y) captures.
    pub open spec fn listed_line(
        self,
        p: PieceType,
        x: int,
        y: int,
        line: Seq<(Point, PieceType)>,
    ) -> bool {
        exists|dd: int| #[trigger] self.line_for_dir(p, x, y, dd, line)
    }

    /// A captured run reaches exactly as far as the captured prefix of
    /// the extracted line.
    pub proof fn lemma_run_gives_prefix(
        self,
        p: PieceType,
        x: int,
        y: int,
        dx: int,
        dy: int,
        line: Seq<(Point, PieceType)>,
        n: int,
    )
        requires
            self.line_ok(x, y, dx, dy, line),
            self.run_to(p, x, y, dx, dy, n),
        ensures
            flip_prefix_ok(line, p, n),
    {
        reveal(Board::line_ok);
        reveal(Board::run_to);
        let len = line.len() as int;
        if len <= n {
            if len + 1 <= n {
                assert(self.ray(x, y, dx, dy, len + 1) == TileType::Piece(p.spec_change()));
            } else {
                assert(len == n);
                assert(self.ray(x, y, dx, dy, len + 1) == TileType::Piece(p));
            }
            assert(false);
        }
        assert(self.ray(x, y, dx, dy, n + 1) == TileType::Piece(line[n].1));
        assert forall|j: int| 0 <= j < n implies (#[trigger] line[j]).1 == p.spec_change() by {
            assert(self.ray(x, y, dx, dy, j + 1) == TileType::Piece(line[j].1));
            assert(self.ray(x, y, dx, dy, j + 1) == TileType::Piece(p.spec_change()));
        }
    }

    /// A captured prefix of the extracted line witnesses a captured run
    /// of the same length on the board.
    pub proof fn lemma_prefix_gives_run(
        self,
        p: PieceType,
        x: int,
        y: int,
        dx: int,
        dy: int,
        line: Seq<(Point, PieceType)>,
        k: int,
    )
        requires
            self.line_ok(x, y, dx, dy, line),
            flip_prefix_ok(line, p, k),
        ensures
            self.run_to(p, x, y, dx, dy, k),
    {
        reveal(Board::line_ok);
        reveal(Board::run_to);
        assert forall|i: int|
            1 <= i <= k implies #[trigger] self.ray(x, y, dx, dy, i) == TileType::Piece(
            p.spec_change(),
        ) by {
            assert(self.ray(x, y, dx, dy, i) == TileType::Piece(line[i - 1].1));
            assert(line[i - 1].1 == p.spec_change());
        }
        assert(self.ray(x, y, dx, dy, k + 1) == TileType::Piece(line[k].1));
    }

    /// Placing p at (x, y) captures in direction (dx, dy) exactly when
    /// the line extracted in that direction has a captured prefix.
    pub proof fn lemma_line_capture_iff(
        self,
        p: PieceType,
        x: int,
        y: int,
        dx: int,
        dy: int,
        line: Seq<(Point, PieceType)>,
    )
        requires
            self.line_ok(x, y, dx, dy, line),
        ensures
            self.captures_in_dir(p, x, y, dx, dy) <==> has_flip_prefix(line, p),
    {
        if self.captures_in_dir(p, x, y, dx, dy) {
            let n = choose|n: int| self.run_to(p, x, y, dx, dy, n);
            self.lemma_run_gives_prefix(p, x, y, dx, dy, line, n);
            assert(flip_prefix_ok(line, p, n));
        }
        if has_flip_prefix(line, p) {
            let k = choose|k: int| flip_prefix_ok(line, p, k);
            self.lemma_prefix_gives_run(p, x, y, dx, dy, line, k);
            assert(self.run_to(p, x, y, dx, dy, k));
        }
    }

    /// Walks outward from (x, y) in direction (dx, dy) and collects the
    /// run of occupied cells, with their colors, until the first cell
    /// that holds no piece.
    fn extract_line(&self, x: usize, y: usize, dx: isize, dy: isize) -> (r: Vec<
        (Point, PieceType),
    >)
        requires
            self.wf(),
            self.tiles.interior(x as int, y as int),
            is_dir(dx as int, dy as int),
        ensures
            self.line_ok(x as int, y as int, dx as int, dy as int, r@),
    {
        proof {
            reveal(Board::line_ok);
        }
        let mut result: Vec<(Point, PieceType)> = Vec::new();
        let mut cx: usize = x;
        let mut cy: usize = y;
        let ghost mut i: int = 0;
        loop
            invariant
                self.wf(),
                self.tiles.interior(x as int, y as int),
                is_dir(dx as int, dy as int),
                i == result@.len(),
                cx as int == x + i * dx,
                cy as int == y + i * dy,
                self.tiles.interior(cx as int, cy as int),
                0 <= i <= self.x_size + self.y_size,
                forall|j: int|
                    0 <= j < i ==> #[trigger] self.ray(x as int, y as int, dx as int, dy as int, j + 1)
                        == TileType::Piece(result@[j].1),
                forall|j: int|
                    0 <= j < i ==> (#[trigger] result@[j]).0.x as int == x + (j + 1) * dx && result@[
                        j
                    ].0.y as int == y + (j + 1) * dy,
            ensures
                self.line_ok(x as int, y as int, dx as int, dy as int, result@),
            decreases self.x_size + self.y_size - i,
        {
            proof {
                reveal(Board::line_ok);
                self.tiles.lemma_sizes_fit();
            }
            let nx: usize = if dx < 0 { cx - 1 } else if dx > 0 { cx + 1 } else { cx };
            let ny: usize = if dy < 0 { cy - 1 } else if dy > 0 { cy + 1 } else { cy };
            proof {
                assert(nx as int == x + (i + 1) * dx && ny as int == y + (i + 1) * dy) by {
                    assert((i + 1) * dx == i * dx + dx) by (nonlinear_arith);
                    assert((i + 1) * dy == i * dy + dy) by (nonlinear_arith);
                }
            }
            let t = self.tiles.get_tile(nx, ny);
            match t {
                TileType::Piece(pt) => {
                    result.push((Point::new(nx, ny), pt));
                    cx = nx;
                    cy = ny;
                    proof {
                        i = i + 1;
                        assert(self.tiles.interior(cx as int, cy as int));
                        assert(i <= self.x_size + self.y_size) by {
                            if dx as int == 1 {
                                assert(cx as int == x + i * 1) by (nonlinear_arith)
                                    requires cx as int == x + i * dx, dx as int == 1;
                            } else if dx as int == -1 {
                                assert(cx as int == x + i * (-1)) by (nonlinear_arith)
                                    requires cx as int == x + i * dx, dx as int == -1;
                            } else if dy as int == 1 {
                                assert(cy as int == y + i * 1) by (nonlinear_arith)
                                    requires cy as int == y + i * dy, dy as int == 1;
                            } else {
                                assert(cy as int == y + i * (-1)) by (nonlinear_arith)
                                    requires cy as int == y + i * dy, dy as int == -1;
                            }
                        }
                    }
                },
                _ => {
                    break;
                },
            }
        }
        result
    }

    /// Sets every listed cell of the play area to the given color,
    /// leaving every other cell unchanged.
    fn change_tiles(self, change_points: &Vec<Point>, piece_type: PieceType) -> (r: Board)
        requires
            self.wf(),
            forall|j: int|
                0 <= j < change_points@.len() ==> self.tiles.interior(
                    (#[trigger] change_points@[j]).x as int,
                    change_points@[j].y as int,
                ),
        ensures
            r.wf(),
            r.x_size == self.x_size,
            r.y_size == self.y_size,
            forall|xi: int, yi: int| #[trigger]
                r.tile_at(xi, yi) == if contains_point(change_points@, xi, yi) {
                    TileType::Piece(piece_type)
                } else {
                    self.tile_at(xi, yi)
                },
    {
        let ghost orig = self;
        let mut tiles = self.tiles;
        let mut j: usize = 0;
        while j < change_points.len()
            invariant
                j <= change_points@.len(),
                tiles.wf(),
                tiles.x_size == orig.x_size,
                tiles.y_size == orig.y_size,
                orig.wf(),
                forall|jj: int|
                    0 <= jj < change_points@.len() ==> orig.tiles.interior(
                        (#[trigger] change_points@[jj]).x as int,
                        change_points@[jj].y as int,
                    ),
                forall|xi: int, yi: int| #[trigger]
                    tiles.tile_at(xi, yi) == if contains_point(
                        change_points@.take(j as int),
                        xi,
                        yi,
                    ) {
                        TileType::Piece(piece_type)
                    } else {
                        orig.tile_at(xi, yi)
                    },
            decreases change_points@.len() - j,
        {
            let point = change_points[j];
            tiles.set(point, TileType::Piece(piece_type));
            j = j + 1;
            proof {
                assert forall|xi: int, yi: int| #[trigger]
                    tiles.tile_at(xi, yi) == if contains_point(
                        change_points@.take(j as int),
                        xi,
                        yi,
                    ) {
                        TileType::Piece(piece_type)
                    } else {
                        orig.tile_at(xi, yi)
                    } by {
                    let prev = change_points@.take(j as int - 1);
                    let cur = change_points@.take(j as int);
                    assert(cur == prev.push(change_points@[j - 1]));
                    if contains_point(cur, xi, yi) {
                        let jj = choose|jj: int|
                            0 <= jj < cur.len() && (#[trigger] cur[jj]).x as int == xi
                                && cur[jj].y as int == yi;
                        if jj < prev.len() {
                            assert(prev[jj] == cur[jj]);
                            assert(contains_point(prev, xi, yi));
                        }
                    }
                    if contains_point(prev, xi, yi) {
                        let jj = choose|jj: int|
                            0 <= jj < prev.len() && (#[trigger] prev[jj]).x as int == xi
                                && prev[jj].y as int == yi;
                        assert(cur[jj] == prev[jj]);
                        assert(contains_point(cur, xi, yi));
                    }
                    if xi == point.x as int && yi == point.y as int {
                        assert(cur[j - 1] == point);
                        assert(contains_point(cur, xi, yi));
                    }
                }
            }
        }
        proof {
            assert(change_points@.take(change_points@.len() as int) =~= change_points@);
        }
        Board { tiles, ..self }
    }

    /// Collects the captured prefix of an extracted line for the placing
    /// color: the opposing pieces that placing that color at the line's
    /// origin would flip in this direction.
    pub fn can_change_tiles(line: &Vec<(Point, PieceType)>, piece_type: PieceType) -> (r: Vec<
        (Point, PieceType),
    >)
        ensures
            r@ == spec_flip_prefix(line@, piece_type),
    {
        let mut result: Vec<(Point, PieceType)> = Vec::new();
        let mut is_opposed = false;
        let mut can_change = false;
        let mut idx: usize = 0;
        loop
            invariant_except_break
                idx <= line@.len(),
                is_opposed == (idx > 0),
                !can_change,
                forall|j: int| 0 <= j < idx ==> (#[trigger] line@[j]).1 == piece_type.spec_change(),
                result@ == line@.take(idx as int),
            ensures
                can_change ==> 0 < idx < line@.len() && flip_prefix_ok(line@, piece_type, idx as int)
                    && result@ == line@.take(idx as int),
                !can_change ==> !has_flip_prefix(line@, piece_type),
            decreases line@.len() - idx,
        {
            if idx >= line.len() {
                proof {
                    assert forall|k: int| !flip_prefix_ok(line@, piece_type, k) by {
                        if flip_prefix_ok(line@, piece_type, k) {
                            assert(line@[k].1 == piece_type.spec_change());
                        }
                    }
                }
                break;
            }
            let v = line[idx];
            let this_type = v.1;
            if is_opposed {
                if this_type == piece_type {
                    can_change = true;
                    proof {
                        assert(flip_prefix_ok(line@, piece_type, idx as int));
                    }
                    break;
                } else {
                    result.push(v);
                    proof {
                        assert(line@[idx as int].1 == piece_type.spec_change());
                        assert(result@ =~= line@.take(idx as int + 1));
                    }
                    idx = idx + 1;
                }
            } else {
                if this_type == piece_type {
                    proof {
                        assert forall|k: int| !flip_prefix_ok(line@, piece_type, k) by {
                            if flip_prefix_ok(line@, piece_type, k) {
                                assert(line@[0].1 == piece_type.spec_change());
                            }
                        }
                    }
                    break;
                } else {
                    is_opposed = true;
                    result.push(v);
                    proof {
                        assert(line@[idx as int].1 == piece_type.spec_change());
                        assert(result@ =~= line@.take(idx as int + 1));
                    }
                    idx = idx + 1;
                }
            }
        }
        if can_change {
            proof {
                let k = choose|k: int| flip_prefix_ok(line@, piece_type, k);
                lemma_flip_prefix_unique(line@, piece_type, k, idx as int);
            }
            result
        } else {
            Vec::new()
        }
    }

    /// A captured run in some direction puts an opposing piece right next
    /// to the placing cell.
    pub proof fn lemma_captures_implies_next_to(self, p: PieceType, x: int, y: int)
        requires
            exists|dx: int, dy: int|
                is_dir(dx, dy) && #[trigger] self.captures_in_dir(p, x, y, dx, dy),
        ensures
            self.spec_next_to(x, y),
    {
        reveal(Board::run_to);
        let (dx, dy) = choose|dx: int, dy: int|
            is_dir(dx, dy) && #[trigger] self.captures_in_dir(p, x, y, dx, dy);
        let n = choose|n: int| self.run_to(p, x, y, dx, dy, n);
        assert(self.ray(x, y, dx, dy, 1) == TileType::Piece(p.spec_change()));
        assert(is_dir(dx, dy) && self.ray(x, y, dx, dy, 1).is_occupied());
    }

    /// Scans one direction: when it captures, appends the extracted line
    /// to the list; otherwise leaves the list as it is.
    fn check_dir(
        &self,
        piece_type: PieceType,
        x: usize,
        y: usize,
        dx: isize,
        dy: isize,
        lines: &mut Vec<Vec<(Point, PieceType)>>,
    )
        requires
            self.wf(),
            self.tiles.interior(x as int, y as int),
            is_dir(dx as int, dy as int),
        ensures
            forall|k: int| 0 <= k < old(lines)@.len() ==> final(lines)@[k] == old(lines)@[k],
            self.captures_in_dir(piece_type, x as int, y as int, dx as int, dy as int) ==> {
                &&& final(lines)@.len() == old(lines)@.len() + 1
                &&& self.line_ok(
                    x as int,
                    y as int,
                    dx as int,
                    dy as int,
                    final(lines)@[old(lines)@.len() as int]@,
                )
            },
            !self.captures_in_dir(piece_type, x as int, y as int, dx as int, dy as int)
                ==> final(lines)@ == old(lines)@,
    {
        let extract_line = self.extract_line(x, y, dx, dy);
        let change_tiles = Board::can_change_tiles(&extract_line, piece_type);
        proof {
            self.lemma_line_capture_iff(
                piece_type,
                x as int,
                y as int,
                dx as int,
                dy as int,
                extract_line@,
            );
            if has_flip_prefix(extract_line@, piece_type) {
                let k = choose|k: int| flip_prefix_ok(extract_line@, piece_type, k);
                assert(spec_flip_prefix(extract_line@, piece_type).len() == k);
            }
        }
        if change_tiles.len() > 0 {
            lines.push(extract_line);
        }
    }

    /// Each listed line belongs to some capturing compass direction.
    proof fn lemma_lines_entry(
        self,
        p: PieceType,
        x: int,
        y: int,
        lines: Seq<Vec<(Point, PieceType)>>,
        dirs: Seq<int>,
        k: int,
    )
        requires
            dirs.len() == lines.len(),
            forall|j: int| 0 <= j < dirs.len() ==> 0 <= #[trigger] dirs[j] < 8,
            forall|j: int|
                0 <= j < dirs.len() ==> self.line_ok(
                    x,
                    y,
                    dir_dx(dirs[j]),
                    dir_dy(dirs[j]),
                    (#[trigger] lines[j])@,
                ),
            forall|j: int|
                0 <= j < dirs.len() ==> self.captures_in_dir(
                    p,
                    x,
                    y,
                    dir_dx(#[trigger] dirs[j]),
                    dir_dy(dirs[j]),
                ),
            0 <= k < lines.len(),
        ensures
            self.listed_line(p, x, y, lines[k]@),
    {
        let dd = dirs[k];
        assert(self.line_ok(x, y, dir_dx(dd), dir_dy(dd), lines[k]@));
        assert(self.captures_in_dir(p, x, y, dir_dx(dd), dir_dy(dd)));
        assert(self.line_for_dir(p, x, y, dd, lines[k]@));
    }

    /// Each capturing compass direction has its line listed.
    proof fn lemma_lines_dir(
        self,
        p: PieceType,
        x: int,
        y: int,
        lines: Seq<Vec<(Point, PieceType)>>,
        dirs: Seq<int>,
        dx: int,
        dy: int,
    )
        requires
            dirs.len() == lines.len(),
            forall|j: int|
                0 <= j < dirs.len() ==> self.line_ok(
                    x,
                    y,
                    dir_dx(dirs[j]),
                    dir_dy(dirs[j]),
                    (#[trigger] lines[j])@,
                ),
            forall|dd: int|
                0 <= dd < 8 && #[trigger] self.captures_in_dir(p, x, y, dir_dx(dd), dir_dy(dd))
                    ==> exists|j: int| 0 <= j < dirs.len() && #[trigger] dirs[j] == dd,
            is_dir(dx, dy),
            self.captures_in_dir(p, x, y, dx, dy),
        ensures
            exists|k: int|
                0 <= k < lines.len() && self.line_ok(x, y, dx, dy, #[trigger] lines[k]@),
    {
        lemma_dir_enumeration(dx, dy);
        let dd = choose|d: int| 0 <= d < 8 && dir_dx(d) == dx && dir_dy(d) == dy;
        assert(self.captures_in_dir(p, x, y, dir_dx(dd), dir_dy(dd)));
        let k = choose|k: int| 0 <= k < dirs.len() && #[trigger] dirs[k] == dd;
        assert(self.line_ok(x, y, dx, dy, lines[k]@));
    }

    /// Once all eight directions are scanned, the line list stands for
    /// exactly the capturing directions.
    proof fn lemma_lines_complete(
        self,
        p: PieceType,
        x: int,
        y: int,
        lines: Seq<Vec<(Point, PieceType)>>,
        dirs: Seq<int>,
    )
        requires
            dirs.len() == lines.len(),
            forall|j: int| 0 <= j < dirs.len() ==> 0 <= #[trigger] dirs[j] < 8,
            forall|j: int|
                0 <= j < dirs.len() ==> self.line_ok(
                    x,
                    y,
                    dir_dx(dirs[j]),
                    dir_dy(dirs[j]),
                    (#[trigger] lines[j])@,
                ),
            forall|j: int|
                0 <= j < dirs.len() ==> self.captures_in_dir(
                    p,
                    x,
                    y,
                    dir_dx(#[trigger] dirs[j]),
                    dir_dy(dirs[j]),
                ),
            forall|dd: int|
                0 <= dd < 8 && #[trigger] self.captures_in_dir(p, x, y, dir_dx(dd), dir_dy(dd))
                    ==> exists|j: int| 0 <= j < dirs.len() && #[trigger] dirs[j] == dd,
        ensures
            (lines.len() > 0) <==> (exists|dx: int, dy: int|
                is_dir(dx, dy) && #[trigger] self.captures_in_dir(p, x, y, dx, dy)),
            forall|k: int|
                #![trigger lines[k]]
                0 <= k < lines.len() ==> self.listed_line(p, x, y, lines[k]@),
            forall|dx: int, dy: int|
                is_dir(dx, dy) && #[trigger] self.captures_in_dir(p, x, y, dx, dy) ==> exists|
                    k: int,
                |
                    0 <= k < lines.len() && self.line_ok(x, y, dx, dy, #[trigger] lines[k]@),
    {
        assert forall|k: int|
            #![trigger lines[k]]
            0 <= k < lines.len() implies self.listed_line(p, x, y, lines[k]@) by {
            self.lemma_lines_entry(p, x, y, lines, dirs, k);
        }
        assert forall|dx: int, dy: int|
            is_dir(dx, dy) && #[trigger] self.captures_in_dir(p, x, y, dx, dy) implies exists|
                k: int,
            |
                0 <= k < lines.len() && self.line_ok(x, y, dx, dy, #[trigger] lines[k]@) by {
            self.lemma_lines_dir(p, x, y, lines, dirs, dx, dy);
        }
        if lines.len() > 0 {
            self.lemma_lines_entry(p, x, y, lines, dirs, 0);
        }
    }

    /// Scans all eight directions from (x, y) and returns the extracted
    /// lines of exactly those directions in which placing the color
    /// captures a run.
    pub fn can_change_piece_line(&self, piece_type: PieceType, x: usize, y: usize) -> (r: Vec<
        Vec<(Point, PieceType)>,
    >)
        requires
            self.wf(),
            1 <= x <= self.x_size,
            1 <= y <= self.y_size,
        ensures
            (r@.len() > 0) <==> (exists|dx: int, dy: int|
                is_dir(dx, dy) && #[trigger] self.captures_in_dir(
                    piece_type,
                    x as int,
                    y as int,
                    dx,
                    dy,
                )),
            forall|k: int|
                #![trigger r@[k]]
                0 <= k < r@.len() ==> self.listed_line(piece_type, x as int, y as int, r@[k]@),
            forall|dx: int, dy: int|
                is_dir(dx, dy) && #[trigger] self.captures_in_dir(
                    piece_type,
                    x as int,
                    y as int,
                    dx,
                    dy,
                ) ==> exists|k: int|
                    0 <= k < r@.len() && self.line_ok(x as int, y as int, dx, dy, #[trigger] r@[k]@),
    {
        let xi = Ghost(x as int);
        let yi = Ghost(y as int);
        let mut can_change_lines: Vec<Vec<(Point, PieceType)>> = Vec::new();
        let ghost mut dirs: Seq<int> = Seq::empty();
        let mut d: usize = 0;
        while d < 8
            invariant
                self.wf(),
                self.tiles.interior(xi@, yi@),
                xi@ == x as int,
                yi@ == y as int,
                d <= 8,
                dirs.len() == can_change_lines@.len(),
                forall|k: int| 0 <= k < dirs.len() ==> 0 <= #[trigger] dirs[k] < d as int,
                forall|k: int|
                    0 <= k < dirs.len() ==> self.line_ok(
                        xi@,
                        yi@,
                        dir_dx(dirs[k]),
                        dir_dy(dirs[k]),
                        (#[trigger] can_change_lines@[k])@,
                    ),
                forall|k: int|
                    0 <= k < dirs.len() ==> self.captures_in_dir(
                        piece_type,
                        xi@,
                        yi@,
                        dir_dx(#[trigger] dirs[k]),
                        dir_dy(dirs[k]),
                    ),
                forall|dd: int|
                    0 <= dd < d as int && #[trigger] self.captures_in_dir(
                        piece_type,
                        xi@,
                        yi@,
                        dir_dx(dd),
                        dir_dy(dd),
                    ) ==> exists|k: int| 0 <= k < dirs.len() && #[trigger] dirs[k] == dd,
            decreases 8 - d,
        {
            let (dx, dy) = dir_offset(d);
            let ghost before = can_change_lines@;
            let ghost dirs_before = dirs;
            let ghost dcur = d as int;
            self.check_dir(piece_type, x, y, dx, dy, &mut can_change_lines);
            d = d + 1;
            proof {
                if self.captures_in_dir(piece_type, xi@, yi@, dir_dx(dcur), dir_dy(dcur)) {
                    dirs = dirs.push(dcur);
                    assert(can_change_lines@[before.len() as int] == can_change_lines@[
                        dirs.len() - 1
                    ]);
                } else {
                    assert(can_change_lines@ == before);
                }
                assert forall|k: int|
                    0 <= k < dirs.len() implies 0 <= #[trigger] dirs[k] < d as int && self.line_ok(
                        xi@,
                        yi@,
                        dir_dx(dirs[k]),
                        dir_dy(dirs[k]),
                        can_change_lines@[k]@,
                    ) && self.captures_in_dir(
                        piece_type,
                        xi@,
                        yi@,
                        dir_dx(dirs[k]),
                        dir_dy(dirs[k]),
                    ) by {
                    if k < dirs_before.len() {
                        assert(dirs[k] == dirs_before[k]);
                        assert(can_change_lines@[k] == before[k]);
                        assert(self.line_ok(
                            xi@,
                            yi@,
                            dir_dx(dirs_before[k]),
                            dir_dy(dirs_before[k]),
                            before[k]@,
                        ));
                    } else {
                        assert(dirs[k] == dcur);
                    }
                }
                assert forall|dd: int|
                    0 <= dd < d as int && #[trigger] self.captures_in_dir(
                        piece_type,
                        xi@,
                        yi@,
                        dir_dx(dd),
                        dir_dy(dd),
                    ) implies exists|k: int| 0 <= k < dirs.len() && #[trigger] dirs[k] == dd by {
                    if dd < dcur {
                        let k = choose|k: int|
                            0 <= k < dirs_before.len() && #[trigger] dirs_before[k] == dd;
                        assert(dirs[k] == dd);
                    } else {
                        assert(dirs[dirs.len() - 1] == dd);
                    }
                }
            }
        }
        proof {
            self.lemma_lines_complete(piece_type, x as int, y as int, can_change_lines@, dirs);
        }
        can_change_lines
    }

    /// A direction's captured run has exactly one length: the run ends at
    /// the first cell of the placing color.
    pub proof fn lemma_run_unique(
        self,
        p: PieceType,
        x: int,
        y: int,
        dx: int,
        dy: int,
        n1: int,
        n2: int,
    )
        requires
            self.run_to(p, x, y, dx, dy, n1),
            self.run_to(p, x, y, dx, dy, n2),
        ensures
            n1 == n2,
    {
        reveal(Board::run_to);
        if n1 < n2 {
            assert(self.ray(x, y, dx, dy, n1 + 1) == TileType::Piece(p.spec_change()));
        }
        if n2 < n1 {
            assert(self.ray(x, y, dx, dy, n2 + 1) == TileType::Piece(p.spec_change()));
        }
    }

    /// A captured cell holds an opposing piece before the move.
    pub proof fn lemma_captured_occupied(
        self,
        p: PieceType,
        x: int,
        y: int,
        xi: int,
        yi: int,
    )
        requires
            self.spec_captured(p, x, y, xi, yi),
        ensures
            self.tile_at(xi, yi) == TileType::Piece(p.spec_change()),
    {
        reveal(Board::run_to);
        let (dx, dy) = choose|dx: int, dy: int|
            is_dir(dx, dy) && #[trigger] self.spec_captured_cell_in(p, x, y, dx, dy, xi, yi);
        let i = choose|i: int|
            xi == x + i * dx && yi == y + i * dy && #[trigger] self.spec_captured_in_dir(
                p,
                x,
                y,
                dx,
                dy,
                i,
            );
        let n = choose|n: int| i <= n && #[trigger] self.run_to(p, x, y, dx, dy, n);
        assert(self.ray(x, y, dx, dy, i) == TileType::Piece(p.spec_change()));
    }

    /// The flip points of one direction's line are exactly the cells
    /// captured in that direction.
    proof fn lemma_line_flip_cells(
        self,
        p: PieceType,
        x: int,
        y: int,
        dx: int,
        dy: int,
        line: Seq<(Point, PieceType)>,
        xi: int,
        yi: int,
    )
        requires
            is_dir(dx, dy),
            self.line_ok(x, y, dx, dy, line),
            self.captures_in_dir(p, x, y, dx, dy),
        ensures
            contains_point(flip_points(line, p), xi, yi) <==> self.spec_captured_cell_in(
                p,
                x,
                y,
                dx,
                dy,
                xi,
                yi,
            ),
    {
        reveal(Board::line_ok);
        self.lemma_line_capture_iff(p, x, y, dx, dy, line);
        let kstar = choose|k: int| flip_prefix_ok(line, p, k);
        self.lemma_prefix_gives_run(p, x, y, dx, dy, line, kstar);
        let pts = flip_points(line, p);
        assert(spec_flip_prefix(line, p) == line.take(kstar));
        assert(pts.len() == kstar);
        if contains_point(pts, xi, yi) {
            let j = choose|j: int|
                0 <= j < pts.len() && (#[trigger] pts[j]).x as int == xi && pts[j].y as int == yi;
            assert(pts[j] == line[j].0);
            assert(line[j].0.x as int == x + (j + 1) * dx && line[j].0.y as int == y + (j + 1)
                * dy);
            assert(self.spec_captured_in_dir(p, x, y, dx, dy, j + 1)) by {
                assert(j + 1 <= kstar && self.run_to(p, x, y, dx, dy, kstar));
            }
            assert(self.spec_captured_cell_in(p, x, y, dx, dy, xi, yi));
        }
        if self.spec_captured_cell_in(p, x, y, dx, dy, xi, yi) {
            let i = choose|i: int|
                xi == x + i * dx && yi == y + i * dy && #[trigger] self.spec_captured_in_dir(
                    p,
                    x,
                    y,
                    dx,
                    dy,
                    i,
                );
            let n = choose|n: int| i <= n && #[trigger] self.run_to(p, x, y, dx, dy, n);
            self.lemma_run_unique(p, x, y, dx, dy, n, kstar);
            assert(1 <= i <= kstar);
            assert(pts[i - 1] == line[i - 1].0);
            assert(line[i - 1].0.x as int == x + i * dx && line[i - 1].0.y as int == y + i * dy);
            assert(contains_point(pts, xi, yi));
        }
    }

    /// The cells flipped by the collected lines are exactly the captured
    /// cells, over all directions.
    proof fn lemma_lines_flip_cells(
        self,
        p: PieceType,
        x: int,
        y: int,
        lines: Seq<Vec<(Point, PieceType)>>,
        xi: int,
        yi: int,
    )
        requires
            forall|k: int|
                #![trigger lines[k]]
                0 <= k < lines.len() ==> self.listed_line(p, x, y, lines[k]@),
            forall|dx: int, dy: int|
                is_dir(dx, dy) && #[trigger] self.captures_in_dir(p, x, y, dx, dy) ==> exists|
                    k: int,
                |
                    0 <= k < lines.len() && self.line_ok(x, y, dx, dy, #[trigger] lines[k]@),
        ensures
            flipped_by(lines, p, lines.len() as int, xi, yi) <==> self.spec_captured(
                p,
                x,
                y,
                xi,
                yi,
            ),
    {
        if flipped_by(lines, p, lines.len() as int, xi, yi) {
            let kk = choose|kk: int|
                0 <= kk < lines.len() && contains_point(
                    flip_points((#[trigger] lines[kk])@, p),
                    xi,
                    yi,
                );
            assert(self.listed_line(p, x, y, lines[kk]@));
            let dd = choose|dd: int| #[trigger] self.line_for_dir(p, x, y, dd, lines[kk]@);
            self.lemma_line_flip_cells(
                p,
                x,
                y,
                dir_dx(dd),
                dir_dy(dd),
                lines[kk]@,
                xi,
                yi,
            );
            assert(is_dir(dir_dx(dd), dir_dy(dd)));
            assert(self.spec_captured_cell_in(p, x, y, dir_dx(dd), dir_dy(dd), xi, yi));
        }
        if self.spec_captured(p, x, y, xi, yi) {
            let (dx, dy) = choose|dx: int, dy: int|
                is_dir(dx, dy) && #[trigger] self.spec_captured_cell_in(p, x, y, dx, dy, xi, yi);
            assert(self.captures_in_dir(p, x, y, dx, dy)) by {
                let i = choose|i: int|
                    xi == x + i * dx && yi == y + i * dy && #[trigger] self.spec_captured_in_dir(
                        p,
                        x,
                        y,
                        dx,
                        dy,
                        i,
                    );
                let n = choose|n: int| i <= n && #[trigger] self.run_to(p, x, y, dx, dy, n);
                assert(self.run_to(p, x, y, dx, dy, n));
            }
            let k = choose|k: int|
                0 <= k < lines.len() && self.line_ok(x, y, dx, dy, (#[trigger] lines[k])@);
            self.lemma_line_flip_cells(p, x, y, dx, dy, lines[k]@, xi, yi);
            assert(contains_point(flip_points(lines[k]@, p), xi, yi));
            assert(flipped_by(lines, p, lines.len() as int, xi, yi));
        }
    }

    /// Whether the color may be placed at the coordinate: the cell is a
    /// playable square and scanning outward captures at least one run of
    /// opposing pieces.  Coordinates outside the play area never qualify.
    pub fn can_put_piece(&self, piece_type: PieceType, point: &Point) -> (r: bool)
        requires
            self.wf(),
        ensures
            r == self.spec_can_put(piece_type, point.x as int, point.y as int),
    {
        if self.is_square(point) {
            proof {
                assert(self.tiles.interior(point.x as int, point.y as int));
            }
            if self.is_next_to_piece(point.x, point.y) {
                let change_piece_line = self.can_change_piece_line(piece_type, point.x, point.y);
                !change_piece_line.is_empty()
            } else {
                proof {
                    if exists|dx: int, dy: int|
                        is_dir(dx, dy) && #[trigger] self.captures_in_dir(
                            piece_type,
                            point.x as int,
                            point.y as int,
                            dx,
                            dy,
                        ) {
                        self.lemma_captures_implies_next_to(
                            piece_type,
                            point.x as int,
                            point.y as int,
                        );
                    }
                }
                false
            }
        } else {
            false
        }
    }

    /// A legal placement raises the occupied count by exactly one: the
    /// placed piece occupies a previously playable square, and flips only
    /// recolor cells that were already occupied.
    proof fn lemma_put_count(self, r: Board, p: PieceType, x: int, y: int)
        requires
            self.wf(),
            r.wf(),
            r.x_size == self.x_size,
            r.y_size == self.y_size,
            self.tiles.interior(x, y),
            self.tile_at(x, y) == TileType::Square,
            forall|xi: int, yi: int| #[trigger]
                r.tile_at(xi, yi) == self.spec_put_at(p, x, y, xi, yi),
        ensures
            count_occupied(r.tiles.tiles@) == count_occupied(self.tiles.tiles@) + 1,
    {
        let w = self.x_size as int;
        let h = self.y_size as int;
        let s1 = self.tiles.tiles@;
        let s2 = r.tiles.tiles@;
        let idx0 = grid_index(w, x, y);
        lemma_grid_index_bounds(w, h, x, y);
        assert(s1[idx0] == self.tile_at(x, y));
        assert(s2[idx0] == r.tile_at(x, y));
        assert(r.tile_at(x, y) == TileType::Piece(p));
        assert forall|i: int|
            0 <= i < s1.len() && i != idx0 implies s1[i].is_occupied() == #[trigger] s2[
            i
        ].is_occupied() by {
            lemma_grid_index_decompose(w, h, i);
            let cx = i % (w + 2);
            let cy = i / (w + 2);
            assert(s1[i] == self.tile_at(cx, cy));
            assert(s2[i] == r.tile_at(cx, cy));
            assert(!(cx == x && cy == y));
            if self.spec_captured(p, x, y, cx, cy) {
                self.lemma_captured_occupied(p, x, y, cx, cy);
            }
        }
        lemma_count_occupied_one_more(s1, s2, idx0);
    }

    /// Places the color at the coordinate.  An illegal placement returns
    /// the board unchanged; a legal one occupies the cell, flips every
    /// captured run, and leaves all other cells as they were.
    pub fn put_piece(self, piece_type: PieceType, point: Point) -> (r: Board)
        requires
            self.wf(),
        ensures
            r.wf(),
            r.x_size == self.x_size,
            r.y_size == self.y_size,
            !self.spec_can_put(piece_type, point.x as int, point.y as int) ==> r == self,
            self.spec_can_put(piece_type, point.x as int, point.y as int) ==> forall|
                xi: int,
                yi: int,
            | #[trigger]
                r.tile_at(xi, yi) == self.spec_put_at(
                    piece_type,
                    point.x as int,
                    point.y as int,
                    xi,
                    yi,
                ),
            self.spec_can_put(piece_type, point.x as int, point.y as int) ==> count_occupied(
                r.tiles.tiles@,
            ) == count_occupied(self.tiles.tiles@) + 1,
    {
        let ghost orig = self;
        let ghost px = point.x as int;
        let ghost py = point.y as int;
        let lines = if self.is_square(&point) {
            proof {
                assert(self.tiles.interior(px, py));
            }
            if self.is_next_to_piece(point.x, point.y) {
                self.can_change_piece_line(piece_type, point.x, point.y)
            } else {
                proof {
                    if exists|dx: int, dy: int|
                        is_dir(dx, dy) && #[trigger] self.captures_in_dir(
                            piece_type,
                            px,
                            py,
                            dx,
                            dy,
                        ) {
                        self.lemma_captures_implies_next_to(piece_type, px, py);
                    }
                }
                Vec::new()
            }
        } else {
            Vec::new()
        };
        let mut board = self;
        if lines.len() > 0 {
            board.tiles.set(point, TileType::Piece(piece_type));
            let mut k: usize = 0;
            while k < lines.len()
                invariant
                    orig.wf(),
                    board.wf(),
                    board.x_size == orig.x_size,
                    board.y_size == orig.y_size,
                    px == point.x as int,
                    py == point.y as int,
                    orig.tiles.interior(px, py),
                    k <= lines@.len(),
                    forall|kk: int|
                        #![trigger lines@[kk]]
                        0 <= kk < lines@.len() ==> orig.listed_line(
                            piece_type,
                            px,
                            py,
                            lines@[kk]@,
                        ),
                    forall|xi: int, yi: int| #[trigger]
                        board.tile_at(xi, yi) == if xi == px && yi == py {
                            TileType::Piece(piece_type)
                        } else if flipped_by(lines@, piece_type, k as int, xi, yi) {
                            TileType::Piece(piece_type)
                        } else {
                            orig.tile_at(xi, yi)
                        },
                decreases lines@.len() - k,
            {
                let line = &lines[k];
                let tiles_to_change = Board::can_change_tiles(line, piece_type);
                let mut pts: Vec<Point> = Vec::new();
                let mut i: usize = 0;
                while i < tiles_to_change.len()
                    invariant
                        i <= tiles_to_change@.len(),
                        pts@.len() == i,
                        forall|j: int| 0 <= j < i ==> #[trigger] pts@[j] == tiles_to_change@[j].0,
                    decreases tiles_to_change@.len() - i,
                {
                    let v = tiles_to_change[i];
                    pts.push(v.0);
                    i = i + 1;
                }
                proof {
                    assert(pts@ =~= flip_points(line@, piece_type));
                    let dd = choose|dd: int| #[trigger]
                        orig.listed_line(piece_type, px, py, line@) && orig.line_for_dir(
                            piece_type,
                            px,
                            py,
                            dd,
                            line@,
                        );
                    assert(orig.line_for_dir(piece_type, px, py, dd, line@));
                    reveal(Board::line_ok);
                    assert forall|j: int|
                        0 <= j < pts@.len() implies board.tiles.interior(
                        (#[trigger] pts@[j]).x as int,
                        pts@[j].y as int,
                    ) by {
                        let kstar = choose|kc: int| flip_prefix_ok(line@, piece_type, kc);
                        assert(spec_flip_prefix(line@, piece_type) == line@.take(kstar));
                        assert(pts@[j] == line@[j].0);
                        let cx = px + (j + 1) * dir_dx(dd);
                        let cy = py + (j + 1) * dir_dy(dd);
                        assert(orig.ray(px, py, dir_dx(dd), dir_dy(dd), j + 1) == TileType::Piece(
                            line@[j].1,
                        ));
                        assert(orig.tile_at(cx, cy) == TileType::Piece(line@[j].1));
                        assert(orig.tiles.interior(cx, cy));
                    }
                }
                let ghost board_before = board;
                board = board.change_tiles(&pts, piece_type);
                k = k + 1;
                proof {
                    assert forall|xi: int, yi: int| #[trigger]
                        board.tile_at(xi, yi) == if xi == px && yi == py {
                            TileType::Piece(piece_type)
                        } else if flipped_by(lines@, piece_type, k as int, xi, yi) {
                            TileType::Piece(piece_type)
                        } else {
                            orig.tile_at(xi, yi)
                        } by {
                        lemma_flipped_by_step(lines@, piece_type, k as int - 1, xi, yi);
                        assert(board_before.tile_at(xi, yi) == if xi == px && yi == py {
                            TileType::Piece(piece_type)
                        } else if flipped_by(lines@, piece_type, k as int - 1, xi, yi) {
                            TileType::Piece(piece_type)
                        } else {
                            orig.tile_at(xi, yi)
                        });
                    }
                }
            }
            proof {
                assert(orig.spec_can_put(piece_type, px, py));
                assert forall|xi: int, yi: int| #[trigger]
                    board.tile_at(xi, yi) == orig.spec_put_at(piece_type, px, py, xi, yi) by {
                    orig.lemma_lines_flip_cells(piece_type, px, py, lines@, xi, yi);
                }
                orig.lemma_put_count(board, piece_type, px, py);
            }
        } else {
            proof {
                if orig.spec_can_put(piece_type, px, py) {
                    assert(lines@.len() > 0);
                }
            }
        }
        board
    }

    /// Whether the color has no legal move anywhere: no coordinate at
    /// all admits a placement.
    pub fn is_skip(&self, piece_type: PieceType) -> (r: bool)
        requires
            self.wf(),
        ensures
            r == (forall|xi: int, yi: int| !#[trigger] self.spec_can_put(piece_type, xi, yi)),
    {
        let ghost w = self.x_size as int;
        let ghost h = self.y_size as int;
        let mut result = true;
        let mut it = self.tiles.iter_point();
        loop
            invariant_except_break
                self.wf(),
                w == self.x_size as int,
                h == self.y_size as int,
                it.wf(),
                it.x_size == self.x_size,
                it.y_size == self.y_size,
                0 <= it.pos() <= self.tiles.area(),
                result,
                forall|xi: int, yi: int|
                    self.tiles.in_grid(xi, yi) && grid_index(w, xi, yi) < it.pos()
                        ==> !#[trigger] self.spec_can_put(piece_type, xi, yi),
            ensures
                !result ==> exists|xi: int, yi: int| #[trigger] self.spec_can_put(
                    piece_type,
                    xi,
                    yi,
                ),
                result ==> forall|xi: int, yi: int|
                    self.tiles.in_grid(xi, yi) && grid_index(w, xi, yi) < self.tiles.area()
                        ==> !#[trigger] self.spec_can_put(piece_type, xi, yi),
            decreases self.tiles.area() - it.pos(),
        {
            let ghost prev_x = it.x as int;
            let ghost prev_y = it.y as int;
            let ghost prev_pos = it.pos();
            match it.next() {
                Some(point) => {
                    if self.can_put_piece(piece_type, &point) {
                        result = false;
                        proof {
                            assert(self.spec_can_put(piece_type, point.x as int, point.y as int));
                        }
                        break;
                    }
                    proof {
                        assert forall|xi: int, yi: int|
                            self.tiles.in_grid(xi, yi) && grid_index(w, xi, yi) < it.pos()
                                implies !#[trigger] self.spec_can_put(piece_type, xi, yi) by {
                            if grid_index(w, xi, yi) == prev_pos {
                                crate::tile::lemma_grid_index_injective(
                                    w,
                                    xi,
                                    yi,
                                    prev_x,
                                    prev_y,
                                );
                            }
                        }
                    }
                },
                None => {
                    break;
                },
            }
        }
        proof {
            if result {
                assert forall|xi: int, yi: int| !#[trigger] self.spec_can_put(
                    piece_type,
                    xi,
                    yi,
                ) by {
                    if self.tiles.in_grid(xi, yi) {
                        lemma_grid_index_bounds(w, h, xi, yi);
                    }
                }
            }
        }
        result
    }

    /// The display form of the board: one glyph per cell in row-major
    /// order, border rows and columns included.
    pub open spec fn spec_render(self) -> Seq<char> {
        self.tiles.tiles@.map(|k: int, t: TileType| t.spec_glyph())
    }

    /// What parsing a display form back into cell contents gives: the
    /// cells in row-major order, or nothing when the length does not
    /// match the extents or some character is no glyph.
    pub open spec fn spec_parse_cells(x_size: int, y_size: int, glyphs: Seq<char>) -> Option<
        Seq<TileType>,
    > {
        if glyphs.len() == (x_size + 2) * (y_size + 2) && (forall|k: int|
            0 <= k < glyphs.len() ==> TileType::spec_from_glyph(#[trigger] glyphs[k]) is Some) {
            Some(Seq::new(glyphs.len(), |k: int| TileType::spec_from_glyph(glyphs[k]).unwrap()))
        } else {
            None
        }
    }

    /// Renders the board to its display form: one glyph per cell in
    /// row-major order, border ring included.
    pub fn render_cells(&self) -> (r: Vec<char>)
        requires
            self.wf(),
        ensures
            r@ == self.spec_render(),
    {
        let s = Ghost(self.tiles.tiles@);
        let mut out: Vec<char> = Vec::new();
        let mut it = self.tiles.iter_tile();
        loop
            invariant
                self.wf(),
                s@ == self.tiles.tiles@,
                it.wf(),
                it.tile == &self.tiles,
                0 <= it.pos() <= self.tiles.area(),
                out@.len() == it.pos(),
                forall|j: int| 0 <= j < it.pos() ==> out@[j] == (#[trigger] s@[j]).spec_glyph(),
            ensures
                it.pos() == self.tiles.area(),
                out@.len() == it.pos(),
                forall|j: int| 0 <= j < it.pos() ==> out@[j] == (#[trigger] s@[j]).spec_glyph(),
            decreases self.tiles.area() - it.pos(),
        {
            match it.next() {
                Some(t) => {
                    out.push(t.glyph());
                },
                None => {
                    break;
                },
            }
        }
        proof {
            assert(out@ =~= self.spec_render());
        }
        out
    }

    /// Parses a display form back into a board with the given extents,
    /// or nothing when the length does not match or some character is no
    /// glyph.
    pub fn parse_cells(x_size: usize, y_size: usize, glyphs: &Vec<char>) -> (r: Option<Board>)
        requires
            2 <= x_size,
            2 <= y_size,
            (x_size + 2) * (y_size + 2) <= usize::MAX,
        ensures
            match r {
                Some(b) => {
                    &&& b.x_size == x_size
                    &&& b.y_size == y_size
                    &&& b.tiles.x_size == x_size
                    &&& b.tiles.y_size == y_size
                    &&& Board::spec_parse_cells(x_size as int, y_size as int, glyphs@) == Some(
                        b.tiles.tiles@,
                    )
                },
                None => Board::spec_parse_cells(x_size as int, y_size as int, glyphs@) is None,
            },
    {
        proof {
            crate::tile::lemma_factors_le(x_size as int, y_size as int);
        }
        let area = (x_size + 2) * (y_size + 2);
        if glyphs.len() != area {
            return None;
        }
        let mut cells: Vec<TileType> = Vec::new();
        let mut i: usize = 0;
        while i < area
            invariant
                i <= area,
                area == (x_size + 2) * (y_size + 2),
                glyphs@.len() == area,
                cells@.len() == i,
                forall|k: int|
                    0 <= k < i ==> TileType::spec_from_glyph(#[trigger] glyphs@[k]) == Some(
                        cells@[k],
                    ),
            decreases area - i,
        {
            match TileType::from_glyph(glyphs[i]) {
                Some(t) => {
                    cells.push(t);
                },
                None => {
                    return None;
                },
            }
            i = i + 1;
        }
        proof {
            assert forall|k: int|
                0 <= k < glyphs@.len() implies TileType::spec_from_glyph(
                #[trigger] glyphs@[k],
            ) is Some by {}
            assert(Seq::new(glyphs@.len(), |k: int| TileType::spec_from_glyph(glyphs@[k]).unwrap())
                =~= cells@);
        }
        Some(Board { tiles: Tile { tiles: cells, x_size, y_size }, x_size, y_size })
    }

    /// No placement is ever legal outside the play area: every cell of
    /// the border ring, and every coordinate beyond the grid, rejects
    /// both colors.
    pub proof fn lemma_no_place_outside(self, p: PieceType, x: int, y: int)
        requires
            self.wf(),
            !self.tiles.interior(x, y),
        ensures
            !self.spec_can_put(p, x, y),
    {
        assert(self.tile_at(x, y) == TileType::Border);
    }

    /// The game is over on any fully occupied board, whatever the color
    /// distribution, and on any board whose pieces are all one color,
    /// however many playable squares remain.
    pub proof fn lemma_is_end_conditions(self)
        ensures
            !has_square(self.tiles.tiles@) ==> self.spec_is_end(),
            count_color(self.tiles.tiles@, PieceType::White) == 0 ==> self.spec_is_end(),
            count_color(self.tiles.tiles@, PieceType::Black) == 0 ==> self.spec_is_end(),
    {
    }

    /// Rendering a board to its display form and parsing the glyphs back
    /// reproduces the cell contents exactly.
    pub proof fn lemma_render_parse_round_trip(self)
        requires
            self.wf(),
        ensures
            Board::spec_parse_cells(self.x_size as int, self.y_size as int, self.spec_render())
                == Some(self.tiles.tiles@),
    {
        let g = self.spec_render();
        assert(g.len() == (self.x_size + 2) * (self.y_size + 2));
        assert forall|k: int|
            0 <= k < g.len() implies TileType::spec_from_glyph(#[trigger] g[k]) is Some by {
            crate::tile_type::lemma_glyph_round_trip(self.tiles.tiles@[k]);
        }
        let parsed = Seq::new(g.len(), |k: int| TileType::spec_from_glyph(g[k]).unwrap());
        assert forall|k: int| 0 <= k < g.len() implies parsed[k] == self.tiles.tiles@[k] by {
            crate::tile_type::lemma_glyph_round_trip(self.tiles.tiles@[k]);
        }
        assert(parsed =~= self.tiles.tiles@);
    }

}

} // verus!

use vstd::prelude::*;
use vstd::arithmetic::div_mod::lemma_fundamental_div_mod;
use vstd::arithmetic::mul::lemma_mul_inequality;
use crate::piece_type::PieceType;
use crate::point::Point;
use crate::tile_type::TileType;

verus! {

/// The cell storage of a board: a dense grid of (x_size + 2) times
/// (y_size + 2) cells in row-major order, the extra ring holding the
/// border cells that surround the play area.
pub struct Tile {
    pub tiles: Vec<TileType>,
    pub x_size: usize,
    pub y_size: usize,
}

/// Position of the cell (x, y) in the row-major cell vector of a grid
/// whose rows are w + 2 cells wide.
pub open spec fn grid_index(w: int, x: int, y: int) -> int {
    y * (w + 2) + x
}

/// Every cell of a grid with play area w by h lies below (w+2)*(h+2).
pub proof fn lemma_grid_index_bounds(w: int, h: int, x: int, y: int)
    by (nonlinear_arith)
    requires
        0 <= w,
        0 <= h,
        0 <= x < w + 2,
        0 <= y < h + 2,
    ensures
        0 <= grid_index(w, x, y) < (w + 2) * (h + 2),
{
}

/// Distinct cells of the grid have distinct positions in the cell vector.
pub proof fn lemma_grid_index_injective(w: int, x1: int, y1: int, x2: int, y2: int)
    by (nonlinear_arith)
    requires
        0 <= x1 < w + 2,
        0 <= x2 < w + 2,
        grid_index(w, x1, y1) == grid_index(w, x2, y2),
    ensures
        x1 == x2 && y1 == y2,
{
}

/// Every position below (w+2)*(h+2) is the position of exactly one grid
/// cell, recovered by division and remainder.
pub proof fn lemma_grid_index_decompose(w: int, h: int, k: int)
    requires
        0 <= w,
        0 <= h,
        0 <= k < (w + 2) * (h + 2),
    ensures
        0 <= k % (w + 2) < w + 2,
        0 <= k / (w + 2) < h + 2,
        grid_index(w, k % (w + 2), k / (w + 2)) == k,
{
    lemma_fundamental_div_mod(k, w + 2);
    assert(0 <= k % (w + 2) < w + 2) by (nonlinear_arith)
        requires 0 <= k, 2 <= w + 2;
    assert(0 <= k / (w + 2)) by (nonlinear_arith)
        requires 0 <= k, 2 <= w + 2, k == (w + 2) * (k / (w + 2)) + k % (w + 2);
    assert(k / (w + 2) < h + 2) by (nonlinear_arith)
        requires
            k < (w + 2) * (h + 2),
            2 <= w + 2,
            0 <= k % (w + 2),
            k == (w + 2) * (k / (w + 2)) + k % (w + 2);
}

/// Cells listed earlier in row-major order stand earlier in the cell
/// vector.
pub proof fn lemma_grid_index_lt(w: int, x1: int, y1: int, x2: int, y2: int)
    by (nonlinear_arith)
    requires
        0 <= x1 < w + 2,
        0 <= x2,
        y1 < y2 || (y1 == y2 && x1 < x2),
    ensures
        grid_index(w, x1, y1) < grid_index(w, x2, y2),
{
}

/// Each grid extent fits within the total cell count.
pub proof fn lemma_factors_le(w: int, h: int)
    by (nonlinear_arith)
    requires
        0 <= w,
        0 <= h,
    ensures
        w + 2 <= (w + 2) * (h + 2),
        h + 2 <= (w + 2) * (h + 2),
{
}

/// The position just past the last row is the total cell count.
pub proof fn lemma_grid_end(w: int, h: int)
    by (nonlinear_arith)
    ensures
        grid_index(w, 0, h + 2) == (w + 2) * (h + 2),
{
}

/// Stepping past the end of a row lands on the start of the next row.
pub proof fn lemma_row_wrap(w: int, y: int)
    by (nonlinear_arith)
    ensures
        grid_index(w, w + 2, y) == grid_index(w, 0, y + 1),
{
}

/// The cell contents of the base grid, before the opening pieces are
/// placed: playable squares in the play area, border cells around it.
pub open spec fn spec_base_at(w: int, h: int, x: int, y: int) -> TileType {
    if 1 <= x <= w && 1 <= y <= h {
        TileType::Square
    } else {
        TileType::Border
    }
}

/// The cell contents of a freshly initialized grid with play area w by h:
/// border everywhere outside the play area, the four standard opening
/// pieces in a diagonal pattern around the center, playable squares
/// elsewhere.
pub open spec fn spec_init_at(w: int, h: int, x: int, y: int) -> TileType {
    if !(1 <= x <= w && 1 <= y <= h) {
        TileType::Border
    } else if (x == w / 2 && y == h / 2) || (x == w / 2 + 1 && y == h / 2 + 1) {
        TileType::Piece(PieceType::White)
    } else if (x == w / 2 + 1 && y == h / 2) || (x == w / 2 && y == h / 2 + 1) {
        TileType::Piece(PieceType::Black)
    } else {
        TileType::Square
    }
}

impl Tile {
    /// Number of cells in the grid, border ring included.
    pub open spec fn area(self) -> int {
        (self.x_size + 2) * (self.y_size + 2)
    }

    /// Whether (x, y) lies on the grid, border ring included.
    pub open spec fn in_grid(self, x: int, y: int) -> bool {
        0 <= x <= self.x_size + 1 && 0 <= y <= self.y_size + 1
    }

    /// Whether (x, y) lies in the play area.
    pub open spec fn interior(self, x: int, y: int) -> bool {
        1 <= x <= self.x_size && 1 <= y <= self.y_size
    }

    /// The content of the cell at (x, y).  Looking outside the grid gives
    /// a border cell, so neighbor lookups never need bounds branching.
    pub open spec fn tile_at(self, x: int, y: int) -> TileType {
        if self.in_grid(x, y) {
            self.tiles@[grid_index(self.x_size as int, x, y)]
        } else {
            TileType::Border
        }
    }

    /// Well-formedness: the play area is at least 2 by 2 (so that the four
    /// opening pieces fit), the cell vector covers the whole grid, and a
    /// cell is a border cell exactly when it lies outside the play area.
    pub open spec fn wf(self) -> bool {
        &&& 2 <= self.x_size
        &&& 2 <= self.y_size
        &&& self.tiles@.len() == self.area()
        &&& forall|x: int, y: int|
            (#[trigger] self.tile_at(x, y) == TileType::Border) <==> !self.interior(x, y)
    }

    /// A well-formed grid is wide and tall enough that the row and column
    /// counts themselves fit in the machine word.
    pub proof fn lemma_sizes_fit(self)
        requires
            self.wf(),
        ensures
            self.x_size + 2 <= self.tiles@.len(),
            self.y_size + 2 <= self.tiles@.len(),
            self.area() <= usize::MAX,
    {
        lemma_mul_inequality(1, self.y_size + 2, self.x_size + 2);
        lemma_mul_inequality(1, self.x_size + 2, self.y_size + 2);
        assert((self.y_size + 2) * (self.x_size + 2) == (self.x_size + 2) * (self.y_size + 2))
            by (nonlinear_arith);
        assert(vstd::std_specs::vec::spec_vec_len(&self.tiles) == self.tiles@.len());
    }

    /// The content of the cell at (x, y), read with the same convention as
    /// the specification: anything outside the grid reads as border.
    pub fn get_tile(&self, x: usize, y: usize) -> (r: TileType)
        requires
            self.wf(),
        ensures
            r == self.tile_at(x as int, y as int),
    {
        proof {
            self.lemma_sizes_fit();
        }
        if x <= self.x_size + 1 && y <= self.y_size + 1 {
            proof {
                lemma_grid_index_bounds(self.x_size as int, self.y_size as int, x as int, y as int);
            }
            self.tiles[y * (self.x_size + 2) + x]
        } else {
            TileType::Border
        }
    }

    /// Looks up the cell at a coordinate, or nothing when the coordinate
    /// lies off the grid.
    pub fn get(&self, k: &Point) -> (r: Option<TileType>)
        requires
            self.wf(),
        ensures
            r == if self.in_grid(k.x as int, k.y as int) {
                Some(self.tile_at(k.x as int, k.y as int))
            } else {
                None::<TileType>
            },
    {
        proof {
            self.lemma_sizes_fit();
        }
        if k.x <= self.x_size + 1 && k.y <= self.y_size + 1 {
            Some(self.get_tile(k.x, k.y))
        } else {
            None
        }
    }

    /// Writes a cell of the play area.  Border cells never change, so the
    /// coordinate must lie in the play area and the new content must not
    /// be a border cell.
    pub fn set(&mut self, point: Point, tile_type: TileType)
        requires
            old(self).wf(),
            old(self).interior(point.x as int, point.y as int),
            tile_type != TileType::Border,
        ensures
            final(self).wf(),
            final(self).x_size == old(self).x_size,
            final(self).y_size == old(self).y_size,
            final(self).tile_at(point.x as int, point.y as int) == tile_type,
            forall|x: int, y: int|
                !(x == point.x as int && y == point.y as int) ==> #[trigger] final(self).tile_at(
                    x,
                    y,
                ) == old(self).tile_at(x, y),
    {
        proof {
            self.lemma_sizes_fit();
            lemma_grid_index_bounds(
                self.x_size as int,
                self.y_size as int,
                point.x as int,
                point.y as int,
            );
        }
        let idx = point.y * (self.x_size + 2) + point.x;
        self.tiles.set(idx, tile_type);
        proof {
            let w = self.x_size as int;
            let px = point.x as int;
            let py = point.y as int;
            assert forall|x: int, y: int|
                !(x == px && y == py) implies #[trigger] self.tile_at(x, y) == old(self).tile_at(
                x,
                y,
            ) by {
                if self.in_grid(x, y) {
                    lemma_grid_index_bounds(w, self.y_size as int, x, y);
                    if grid_index(w, x, y) == grid_index(w, px, py) {
                        lemma_grid_index_injective(w, x, y, px, py);
                    }
                }
            }
        }
    }

    /// Builds the base grid in row-major order: playable squares inside
    /// the play area, border cells on the surrounding ring.
    fn initialize_tiles(x_size: usize, y_size: usize) -> (r: Vec<TileType>)
        requires
            2 <= x_size,
            2 <= y_size,
            (x_size + 2) * (y_size + 2) <= usize::MAX,
        ensures
            r@.len() == (x_size + 2) * (y_size + 2),
            forall|x: int, y: int|
                0 <= x < x_size + 2 && 0 <= y < y_size + 2 ==> r@[#[trigger] grid_index(
                    x_size as int,
                    x,
                    y,
                )] == spec_base_at(x_size as int, y_size as int, x, y),
    {
        let ghost w = x_size as int;
        let ghost h = y_size as int;
        proof {
            lemma_factors_le(w, h);
        }
        let mut tiles: Vec<TileType> = Vec::new();
        let mut y: usize = 0;
        while y < y_size + 2
            invariant
                2 <= x_size,
                2 <= y_size,
                (x_size + 2) * (y_size + 2) <= usize::MAX,
                x_size + 2 <= usize::MAX,
                y_size + 2 <= usize::MAX,
                w == x_size as int,
                h == y_size as int,
                y <= y_size + 2,
                tiles@.len() == grid_index(w, 0, y as int),
                forall|xx: int, yy: int|
                    0 <= xx < w + 2 && 0 <= yy < y as int ==> tiles@[#[trigger] grid_index(
                        w,
                        xx,
                        yy,
                    )] == spec_base_at(w, h, xx, yy),
            decreases y_size + 2 - y,
        {
            let mut x: usize = 0;
            while x < x_size + 2
                invariant
                    2 <= x_size,
                    2 <= y_size,
                    (x_size + 2) * (y_size + 2) <= usize::MAX,
                    x_size + 2 <= usize::MAX,
                    y_size + 2 <= usize::MAX,
                    w == x_size as int,
                    h == y_size as int,
                    y < y_size + 2,
                    x <= x_size + 2,
                    tiles@.len() == grid_index(w, x as int, y as int),
                    forall|xx: int, yy: int|
                        0 <= xx < w + 2 && 0 <= yy < y as int ==> tiles@[#[trigger] grid_index(
                            w,
                            xx,
                            yy,
                        )] == spec_base_at(w, h, xx, yy),
                    forall|xx: int|
                        0 <= xx < x as int ==> tiles@[#[trigger] grid_index(w, xx, y as int)]
                            == spec_base_at(w, h, xx, y as int),
                decreases x_size + 2 - x,
            {
                proof {
                    lemma_grid_index_bounds(w, h, x as int, y as int);
                }
                let cell = if x == 0 || x == x_size + 1 || y == 0 || y == y_size + 1 {
                    TileType::Border
                } else {
                    TileType::Square
                };
                tiles.push(cell);
                x = x + 1;
                proof {
                    assert forall|xx: int, yy: int|
                        0 <= xx < w + 2 && 0 <= yy < y as int implies tiles@[#[trigger] grid_index(
                        w,
                        xx,
                        yy,
                    )] == spec_base_at(w, h, xx, yy) by {
                        lemma_grid_index_lt(w, xx, yy, x as int - 1, y as int);
                        lemma_grid_index_bounds(w, h, xx, yy);
                    }
                    assert forall|xx: int|
                        0 <= xx < x as int implies tiles@[#[trigger] grid_index(w, xx, y as int)]
                        == spec_base_at(w, h, xx, y as int) by {
                        if xx < x as int - 1 {
                            lemma_grid_index_lt(w, xx, y as int, x as int - 1, y as int);
                        }
                        lemma_grid_index_bounds(w, h, xx, y as int);
                    }
                }
            }
            y = y + 1;
            proof {
                lemma_row_wrap(w, y as int - 1);
            }
        }
        proof {
            assert(grid_index(w, 0, h + 2) == (w + 2) * (h + 2)) by (nonlinear_arith);
        }
        tiles
    }

    /// Builds the grid for a play area of the given extents, with the four
    /// standard opening pieces around the center: white on the main
    /// diagonal, black on the other.
    pub fn new(x_size: usize, y_size: usize) -> (r: Tile)
        requires
            2 <= x_size,
            2 <= y_size,
            (x_size + 2) * (y_size + 2) <= usize::MAX,
        ensures
            r.wf(),
            r.x_size == x_size,
            r.y_size == y_size,
            forall|x: int, y: int| #[trigger]
                r.tile_at(x, y) == spec_init_at(x_size as int, y_size as int, x, y),
    {
        let ghost w = x_size as int;
        let ghost h = y_size as int;
        let mut tile = Tile { tiles: Self::initialize_tiles(x_size, y_size), x_size, y_size };
        proof {
            assert forall|x: int, y: int| #[trigger]
                tile.tile_at(x, y) == spec_base_at(w, h, x, y) by {
                if tile.in_grid(x, y) {
                    lemma_grid_index_bounds(w, h, x, y);
                }
            }
            assert(tile.wf());
        }
        let x_center = x_size / 2;
        let y_center = y_size / 2;
        tile.set(Point::new(x_center, y_center), TileType::Piece(PieceType::White));
        tile.set(Point::new(x_center + 1, y_center), TileType::Piece(PieceType::Black));
        tile.set(Point::new(x_center, y_center + 1), TileType::Piece(PieceType::Black));
        tile.set(Point::new(x_center + 1, y_center + 1), TileType::Piece(PieceType::White));
        tile
    }

    /// Starts a traversal of the cell contents in row-major order, border
    /// ring included.
    pub fn iter_tile<'a>(&'a self) -> (r: TileIter<'a>)
        requires
            self.wf(),
        ensures
            r.wf(),
            r.tile == self,
            r.pos() == 0,
    {
        TileIter { x: 0, y: 0, tile: self }
    }

    /// Starts a traversal of all grid coordinates in row-major order,
    /// border ring included.
    pub fn iter_point(&self) -> (r: PointIter)
        requires
            self.wf(),
        ensures
            r.wf(),
            r.x_size == self.x_size,
            r.y_size == self.y_size,
            r.pos() == 0,
    {
        proof {
            self.lemma_sizes_fit();
        }
        PointIter { x: 0, y: 0, x_size: self.x_size, y_size: self.y_size }
    }
}

/// A cursor over the cell contents of a grid, in row-major order.
pub struct TileIter<'a> {
    pub x: usize,
    pub y: usize,
    pub tile: &'a Tile,
}

impl<'a> TileIter<'a> {
    /// Well-formedness: the cursor stands on a grid coordinate, or just
    /// past the last row with its column reset.
    pub open spec fn wf(self) -> bool {
        &&& self.tile.wf()
        &&& self.x <= self.tile.x_size + 1
        &&& self.y <= self.tile.y_size + 2
        &&& self.y == self.tile.y_size + 2 ==> self.x == 0
    }

    /// How many cells the cursor has already yielded.
    pub open spec fn pos(self) -> int {
        grid_index(self.tile.x_size as int, self.x as int, self.y as int)
    }

    /// Yields the next cell content, or nothing once every cell has been
    /// yielded.
    pub fn next(&mut self) -> (r: Option<TileType>)
        requires
            old(self).wf(),
        ensures
            final(self).wf(),
            final(self).tile == old(self).tile,
            old(self).pos() < old(self).tile.area() ==> r == Some(
                old(self).tile.tiles@[old(self).pos()],
            ) && final(self).pos() == old(self).pos() + 1,
            old(self).pos() >= old(self).tile.area() ==> r == None::<TileType> && *final(self)
                == *old(self),
    {
        proof {
            self.tile.lemma_sizes_fit();
            let w = self.tile.x_size as int;
            let h = self.tile.y_size as int;
            if self.y as int <= h + 1 {
                lemma_grid_index_bounds(w, h, self.x as int, self.y as int);
            } else {
                lemma_grid_end(w, h);
            }
        }
        if self.y > self.tile.y_size + 1 {
            return None;
        }
        let t = self.tile.get_tile(self.x, self.y);
        if self.x < self.tile.x_size + 1 {
            self.x = self.x + 1;
        } else {
            self.x = 0;
            self.y = self.y + 1;
            proof {
                lemma_row_wrap(self.tile.x_size as int, self.y as int - 1);
            }
        }
        Some(t)
    }
}

/// A cursor over all grid coordinates of a board, in row-major order.
pub struct PointIter {
    pub x: usize,
    pub y: usize,
    pub x_size: usize,
    pub y_size: usize,
}

impl PointIter {
    /// Well-formedness: the cursor stands on a grid coordinate, or just
    /// past the last row with its column reset, and the grid extents fit
    /// the machine word.
    pub open spec fn wf(self) -> bool {
        &&& 2 <= self.x_size
        &&& 2 <= self.y_size
        &&& (self.x_size + 2) * (self.y_size + 2) <= usize::MAX
        &&& self.x <= self.x_size + 1
        &&& self.y <= self.y_size + 2
        &&& self.y == self.y_size + 2 ==> self.x == 0
    }

    /// Number of cells of the grid, border ring included.
    pub open spec fn area(self) -> int {
        (self.x_size + 2) * (self.y_size + 2)
    }

    /// How many coordinates the cursor has already yielded.
    pub open spec fn pos(self) -> int {
        grid_index(self.x_size as int, self.x as int, self.y as int)
    }

    /// Yields the next coordinate, or nothing once every coordinate has
    /// been yielded.
    pub fn next(&mut self) -> (r: Option<Point>)
        requires
            old(self).wf(),
        ensures
            final(self).wf(),
            final(self).x_size == old(self).x_size,
            final(self).y_size == old(self).y_size,
            old(self).pos() < old(self).area() ==> r == Some(
                Point { x: old(self).x, y: old(self).y },
            ) && final(self).pos() == old(self).pos() + 1,
            old(self).pos() >= old(self).area() ==> r == None::<Point> && *final(self) == *old(self),
    {
        proof {
            let w = self.x_size as int;
            let h = self.y_size as int;
            lemma_factors_le(w, h);
            if self.y as int <= h + 1 {
                lemma_grid_index_bounds(w, h, self.x as int, self.y as int);
            } else {
                lemma_grid_end(w, h);
            }
        }
        if self.y > self.y_size + 1 {
            return None;
        }
        let point = Point::new(self.x, self.y);
        if self.x < self.x_size + 1 {
            self.x = self.x + 1;
        } else {
            self.x = 0;
            self.y = self.y + 1;
            proof {
                lemma_row_wrap(self.x_size as int, self.y as int - 1);
            }
        }
        Some(point)
    }
}

} // verus!

use vstd::prelude::*;
use crate::geometry::Position;

verus! {

/// What a single grid cell holds.
#[derive(Debug, Clone, Copy, PartialEq, Eq, Structural)]
pub enum Tile {
    Empty,
    Wall,
    Player(u64),
}

/// A `width` x `height` grid of tiles, stored row-major: cell `(row, col)` with
/// `row < width` and `col < height` lives at index `row * height + col`.
pub struct Board {
    pub width: usize,
    pub height: usize,
    pub cells: Vec<Tile>,
}

/// `row * height + col` addresses a cell inside a `width * height` grid.
pub proof fn lemma_index_in_grid(row: int, col: int, width: int, height: int)
    requires
        0 <= row < width,
        0 <= col < height,
    ensures
        0 <= row * height + col < width * height,
{
    assert(0 <= row * height) by (nonlinear_arith)
        requires 0 <= row, 0 <= col, col < height;
    assert(row * height + col < width * height) by (nonlinear_arith)
        requires 0 <= row < width, 0 <= col < height;
}

/// The position of the cell in row `row`, column `col`.
pub open spec fn cell_at(row: int, col: int) -> Position {
    Position { x: row as usize, y: col as usize }
}

/// `a` comes before `b` in row-major order.
pub open spec fn precedes(a: Position, b: Position) -> bool {
    a.x < b.x || (a.x == b.x && a.y < b.y)
}

/// Every cell of a `width` x `height` grid, in row-major order.
pub fn all_cells(width: usize, height: usize) -> (cells: Vec<Position>)
    requires
        width * height <= usize::MAX,
    ensures
        cells@.len() == width * height,
        forall|a: int| 0 <= a < cells@.len() ==> #[trigger] cells@[a].x < width && cells@[a].y < height,
        forall|a: int, b: int| 0 <= a < b < cells@.len() ==> precedes(#[trigger] cells@[a], #[trigger] cells@[b]),
{
    let mut cells: Vec<Position> = Vec::new();
    let mut r: usize = 0;
    while r < width
        invariant
            r <= width,
            width * height <= usize::MAX,
            cells@.len() == r * height,
            forall|a: int| 0 <= a < cells@.len() ==> #[trigger] cells@[a].x < r && cells@[a].y < height,
            forall|a: int, b: int| 0 <= a < b < cells@.len() ==> precedes(#[trigger] cells@[a], #[trigger] cells@[b]),
        decreases width - r,
    {
        let mut c: usize = 0;
        assert(r * height + height == (r + 1) * height) by (nonlinear_arith);
        assert((r + 1) * height <= width * height) by (nonlinear_arith)
            requires r + 1 <= width, 0 <= height;
        while c < height
            invariant
                r < width,
                c <= height,
                cells@.len() == r * height + c,
                r * height + height <= usize::MAX,
                forall|a: int| 0 <= a < cells@.len() ==> #[trigger] cells@[a].x <= r && cells@[a].y < height
                    && (cells@[a].x == r ==> cells@[a].y < c),
                forall|a: int, b: int| 0 <= a < b < cells@.len() ==> precedes(#[trigger] cells@[a], #[trigger] cells@[b]),
            decreases height - c,
        {
            cells.push(Position::new(r, c));
            c = c + 1;
        }
        r = r + 1;
    }
    cells
}

impl Board {
    pub open spec fn wf(&self) -> bool {
        &&& self.cells@.len() == self.width * self.height
        &&& self.width * self.height <= usize::MAX
    }

    pub open spec fn in_bounds(&self, row: int, col: int) -> bool {
        0 <= row < self.width && 0 <= col < self.height
    }

    pub open spec fn cell(&self, row: int, col: int) -> Tile {
        self.cells@[row * self.height + col]
    }

    /// A board of the given size with every cell empty.
    pub fn new(width: usize, height: usize) -> (b: Board)
        requires
            width * height <= usize::MAX,
        ensures
            b.wf(),
            b.width == width,
            b.height == height,
            forall|r: int, c: int| b.in_bounds(r, c) ==> b.cell(r, c) == Tile::Empty,
    {
        let total: usize = width * height;
        let mut cells: Vec<Tile> = Vec::new();
        let mut i: usize = 0;
        while i < total
            invariant
                i <= total,
                cells@.len() == i,
                forall|k: int| 0 <= k < i ==> cells@[k] == Tile::Empty,
            decreases total - i,
        {
            cells.push(Tile::Empty);
            i = i + 1;
        }
        let b = Board { width, height, cells };
        assert forall|r: int, c: int| b.in_bounds(r, c) implies b.cell(r, c) == Tile::Empty by {
            lemma_index_in_grid(r, c, width as int, height as int);
        }
        b
    }

    /// The tile at `(row, col)`, or `None` outside the grid.
    pub fn get_cell(&self, row: usize, col: usize) -> (t: Option<Tile>)
        requires
            self.wf(),
        ensures
            self.in_bounds(row as int, col as int) ==> t == Some(self.cell(row as int, col as int)),
            !self.in_bounds(row as int, col as int) ==> t.is_none(),
    {
        if row < self.width && col < self.height {
            proof {
                lemma_index_in_grid(row as int, col as int, self.width as int, self.height as int);
            }
            Some(self.cells[row * self.height + col])
        } else {
            None
        }
    }

    /// Overwrites the tile at `(row, col)`; a position outside the grid changes nothing.
    pub fn set_cell(&mut self, row: usize, col: usize, tile: Tile)
        requires
            old(self).wf(),
        ensures
            final(self).wf(),
            final(self).width == old(self).width,
            final(self).height == old(self).height,
            forall|r: int, c: int|
                final(self).in_bounds(r, c) ==> #[trigger] final(self).cell(r, c) == if r == row
                    && c == col {
                    tile
                } else {
                    old(self).cell(r, c)
                },
    {
        if row < self.width && col < self.height {
            proof {
                lemma_index_in_grid(row as int, col as int, self.width as int, self.height as int);
            }
            let idx: usize = row * self.height + col;
            self.cells.set(idx, tile);
            proof {
                assert forall|r: int, c: int| self.in_bounds(r, c) implies #[trigger] self.cell(r, c)
                    == if r == row && c == col {
                    tile
                } else {
                    old(self).cell(r, c)
                } by {
                    lemma_index_in_grid(r, c, self.width as int, self.height as int);
                    if r != row {
                        lemma_distinct_rows(r, c, row as int, col as int, self.height as int);
                    }
                }
            }
        }
    }

    /// The empty cells, in row-major order.
    pub fn empty_cells(&self) -> (cells: Vec<Position>)
        requires
            self.wf(),
        ensures
            forall|a: int| 0 <= a < cells@.len() ==> self.in_bounds(#[trigger] cells@[a].x as int, cells@[a].y as int)
                && self.cell(cells@[a].x as int, cells@[a].y as int) == Tile::Empty,
            forall|a: int, b: int| 0 <= a < b < cells@.len() ==> precedes(#[trigger] cells@[a], #[trigger] cells@[b]),
            forall|r: int, c: int| self.in_bounds(r, c) && #[trigger] self.cell(r, c) == Tile::Empty ==> exists|a: int|
                0 <= a < cells@.len() && cells@[a] == cell_at(r, c),
    {
        let mut cells: Vec<Position> = Vec::new();
        let mut r: usize = 0;
        while r < self.width
            invariant
                self.wf(),
                r <= self.width,
                forall|a: int| 0 <= a < cells@.len() ==> self.in_bounds(#[trigger] cells@[a].x as int, cells@[a].y as int)
                    && self.cell(cells@[a].x as int, cells@[a].y as int) == Tile::Empty && cells@[a].x < r,
                forall|a: int, b: int| 0 <= a < b < cells@.len() ==> precedes(#[trigger] cells@[a], #[trigger] cells@[b]),
                forall|r2: int, c: int| 0 <= r2 < r && 0 <= c < self.height && #[trigger] self.cell(r2, c) == Tile::Empty ==> exists|a: int|
                    0 <= a < cells@.len() && cells@[a] == cell_at(r2, c),
            decreases self.width - r,
        {
            let mut c: usize = 0;
            while c < self.height
                invariant
                    self.wf(),
                    r < self.width,
                    c <= self.height,
                    forall|a: int| 0 <= a < cells@.len() ==> self.in_bounds(#[trigger] cells@[a].x as int, cells@[a].y as int)
                        && self.cell(cells@[a].x as int, cells@[a].y as int) == Tile::Empty && cells@[a].x <= r
                        && (cells@[a].x == r ==> cells@[a].y < c),
                    forall|a: int, b: int| 0 <= a < b < cells@.len() ==> precedes(#[trigger] cells@[a], #[trigger] cells@[b]),
                    forall|r2: int, c2: int| 0 <= r2 < self.width && 0 <= c2 < self.height && (r2 < r || (r2 == r && c2 < c))
                        && #[trigger] self.cell(r2, c2) == Tile::Empty ==> exists|a: int|
                        0 <= a < cells@.len() && cells@[a] == cell_at(r2, c2),
                decreases self.height - c,
            {
                let ghost before = cells@;
                if let Some(Tile::Empty) = self.get_cell(r, c) {
                    cells.push(Position::new(r, c));
                    proof {
                        assert forall|r2: int, c2: int| 0 <= r2 < self.width && 0 <= c2 < self.height && (r2 < r || (r2 == r && c2 < c + 1))
                            && #[trigger] self.cell(r2, c2) == Tile::Empty implies exists|a: int|
                            0 <= a < cells@.len() && cells@[a] == cell_at(r2, c2) by {
                            if r2 == r && c2 == c {
                                assert(cells@[before.len() as int] == cell_at(r2, c2));
                            } else {
                                let a = choose|a: int| 0 <= a < before.len() && before[a] == cell_at(r2, c2);
                                assert(cells@[a] == before[a]);
                            }
                        }
                    }
                }
                c = c + 1;
            }
            r = r + 1;
        }
        cells
    }
}

/// Distinct rows never share a cell index.
pub proof fn lemma_distinct_rows(r1: int, c1: int, r2: int, c2: int, height: int)
    requires
        0 <= c1 < height,
        0 <= c2 < height,
        r1 != r2,
    ensures
        r1 * height + c1 != r2 * height + c2,
{
    if r1 < r2 {
        assert((r2 - r1) * height >= height) by (nonlinear_arith)
            requires r2 - r1 >= 1, height > 0;
        assert((r2 - r1) * height == r2 * height - r1 * height) by (nonlinear_arith);
    } else {
        assert((r1 - r2) * height >= height) by (nonlinear_arith)
            requires r1 - r2 >= 1, height > 0;
        assert((r1 - r2) * height == r1 * height - r2 * height) by (nonlinear_arith);
    }
}

} // verus!

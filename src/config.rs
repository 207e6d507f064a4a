use vstd::prelude::*;

verus! {

/// Geometry of the tile grid: a square of `grid_size` by `grid_size` tiles.
/// Tiles of the first column are `first_col_width` pixels wide and tiles of the
/// first row `first_row_height` pixels high; every other tile repeats one pixel
/// column (row) of its left (upper) neighbour, so the canvas is exactly
/// `grid_size * first_col_width` by `grid_size * first_row_height` pixels.
#[derive(Clone, Copy, Debug, PartialEq, Eq, Structural)]
pub struct GridConfig {
    pub grid_size: u32,
    pub first_col_width: u32,
    pub first_row_height: u32,
}

/// The grid of the standard data set.
pub const GRID_SIZE: u32 = 16;

pub const FIRST_COL_WIDTH: u32 = 240;

pub const FIRST_ROW_HEIGHT: u32 = 135;

/// Largest number of canvas bytes (three per pixel) the library handles.
pub const MAX_CANVAS_BYTES: u64 = 0xffff_ffff;

impl GridConfig {
    pub open spec fn canvas_width_spec(&self) -> nat {
        (self.grid_size * self.first_col_width) as nat
    }

    pub open spec fn canvas_height_spec(&self) -> nat {
        (self.grid_size * self.first_row_height) as nat
    }

    /// A usable configuration: every dimension positive and the RGB canvas
    /// small enough to be addressed.
    pub open spec fn wf(&self) -> bool {
        &&& 1 <= self.grid_size
        &&& 1 <= self.first_col_width
        &&& 1 <= self.first_row_height
        &&& self.canvas_width_spec() <= u32::MAX
        &&& self.canvas_height_spec() <= u32::MAX
        &&& 3 * self.canvas_width_spec() * self.canvas_height_spec() <= MAX_CANVAS_BYTES
    }

    /// The 16 by 16 grid of 240 by 135 pixel cells (a 3840 by 2160 canvas).
    pub fn standard() -> (r: GridConfig)
        ensures
            r.wf(),
            r.grid_size == GRID_SIZE,
            r.first_col_width == FIRST_COL_WIDTH,
            r.first_row_height == FIRST_ROW_HEIGHT,
    {
        let r = GridConfig {
            grid_size: GRID_SIZE,
            first_col_width: FIRST_COL_WIDTH,
            first_row_height: FIRST_ROW_HEIGHT,
        };
        assert(r.canvas_width_spec() == 3840 && r.canvas_height_spec() == 2160) by (nonlinear_arith)
            requires
                r.grid_size == 16,
                r.first_col_width == 240,
                r.first_row_height == 135,
        ;
        assert(3 * 3840 * 2160 <= MAX_CANVAS_BYTES) by (nonlinear_arith);
        r
    }

    /// Validates a configuration; `None` exactly when it is not usable.
    pub fn new(grid_size: u32, first_col_width: u32, first_row_height: u32) -> (r: Option<
        GridConfig,
    >)
        ensures
            r is Some <==> (GridConfig { grid_size, first_col_width, first_row_height }).wf(),
            r is Some ==> r->0 == (GridConfig { grid_size, first_col_width, first_row_height }),
    {
        let c = GridConfig { grid_size, first_col_width, first_row_height };
        if grid_size == 0 || first_col_width == 0 || first_row_height == 0 {
            return None;
        }
        let w = match grid_size.checked_mul(first_col_width) {
            Some(w) => w,
            None => return None,
        };
        let h = match grid_size.checked_mul(first_row_height) {
            Some(h) => h,
            None => return None,
        };
        assert(3 * c.canvas_width_spec() * c.canvas_height_spec() == 3 * (c.canvas_width_spec() * c.canvas_height_spec())) by (nonlinear_arith);
        let pixels = match (w as u64).checked_mul(h as u64) {
            Some(p) => p,
            None => return None,
        };
        assert(pixels == c.canvas_width_spec() * c.canvas_height_spec());
        if pixels > MAX_CANVAS_BYTES / 3 {
            return None;
        }
        Some(c)
    }

    pub fn canvas_width(&self) -> (r: u32)
        requires
            self.wf(),
        ensures
            r == self.canvas_width_spec(),
    {
        self.grid_size * self.first_col_width
    }

    pub fn canvas_height(&self) -> (r: u32)
        requires
            self.wf(),
        ensures
            r == self.canvas_height_spec(),
    {
        self.grid_size * self.first_row_height
    }

    /// Left pixel column of the cell in grid column `col`: cells after the
    /// first start one pixel early, on the column they share with their left
    /// neighbour.
    pub open spec fn cell_x(&self, col: int) -> int {
        self.first_col_width * col - (if col > 0 { 1int } else { 0int })
    }

    /// Top pixel row of the cell in grid row `row`.
    pub open spec fn cell_y(&self, row: int) -> int {
        self.first_row_height * row - (if row > 0 { 1int } else { 0int })
    }

    /// Top-left canvas pixel of the cell at (`col`, `row`).
    pub fn cell_origin(&self, col: u32, row: u32) -> (r: (u32, u32))
        requires
            self.wf(),
            col < self.grid_size,
            row < self.grid_size,
        ensures
            r.0 == self.cell_x(col as int),
            r.1 == self.cell_y(row as int),
    {
        proof {
            assert(self.first_col_width * col <= self.grid_size * self.first_col_width)
                by (nonlinear_arith)
                requires
                    col < self.grid_size,
            ;
            assert(self.first_row_height * row <= self.grid_size * self.first_row_height)
                by (nonlinear_arith)
                requires
                    row < self.grid_size,
            ;
            assert(col > 0 ==> self.first_col_width * col >= 1) by (nonlinear_arith)
                requires
                    self.first_col_width >= 1,
            ;
            assert(row > 0 ==> self.first_row_height * row >= 1) by (nonlinear_arith)
                requires
                    self.first_row_height >= 1,
            ;
        }
        let x = self.first_col_width * col - if col > 0 {
            1
        } else {
            0
        };
        let y = self.first_row_height * row - if row > 0 {
            1
        } else {
            0
        };
        (x, y)
    }
}

} // verus!

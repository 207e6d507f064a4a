use vstd::prelude::*;
use crate::config::GridConfig;
use crate::fingerprint::{GrayBuffer, Side};

verus! {

/// A colour picture: `width * height` pixels of three bytes (red, green,
/// blue) in row-major order.
#[derive(Clone, Debug)]
pub struct RgbBuffer {
    pub width: u32,
    pub height: u32,
    pub data: Vec<u8>,
}

impl RgbBuffer {
    pub open spec fn wf(&self) -> bool {
        self.data@.len() == 3 * self.width * self.height
    }
}

/// Grid coordinate of a tile that has not been placed.
pub const UNRESOLVED: i32 = -1;

/// One tile of the puzzle: its colour pixels, its grid coordinate (`-1` while
/// unknown) and the fingerprints of its four borders.
#[derive(Clone, Debug)]
pub struct Piece {
    pub image: RgbBuffer,
    pub col: i32,
    pub row: i32,
    pub edge_hashes: [u64; 4],
}

impl Piece {
    /// Both coordinates are known.
    pub open spec fn resolved(&self) -> bool {
        self.col != UNRESOLVED && self.row != UNRESOLVED
    }

    /// The tile known to sit in the top-left cell.
    pub open spec fn is_origin(&self) -> bool {
        self.col == 0 && self.row == 0
    }

    /// A tile of the first column or of the first row.
    pub open spec fn is_anchor(&self) -> bool {
        self.col == 0 || self.row == 0
    }

    pub open spec fn hash(&self, side: Side) -> u64 {
        self.edge_hashes@[side.index_spec()]
    }

    /// Wraps a decoded tile. Its width and height tell whether it belongs to
    /// the first column (`col == 0`) or the first row (`row == 0`); the
    /// fingerprints are taken from its grayscale version.
    pub fn new(gray: &GrayBuffer, image: RgbBuffer, config: &GridConfig) -> (r: Piece)
        requires
            gray.wf(),
            image.width == gray.width,
            image.height == gray.height,
        ensures
            r.image == image,
            r.col == (if gray.width == config.first_col_width { 0 } else { UNRESOLVED }),
            r.row == (if gray.height == config.first_row_height { 0 } else { UNRESOLVED }),
            r.edge_hashes@ == gray.fingerprints(),
    {
        let col = if gray.width == config.first_col_width {
            0
        } else {
            UNRESOLVED
        };
        let row = if gray.height == config.first_row_height {
            0
        } else {
            UNRESOLVED
        };
        let edge_hashes = gray.compute_edge_hashes();
        Piece { image, col, row, edge_hashes }
    }

    /// Canvas rectangle of a placed tile: its cell's top-left pixel and its
    /// own width and height.
    pub fn rect(&self, config: &GridConfig) -> (r: (u32, u32, u32, u32))
        requires
            config.wf(),
            0 <= self.col < config.grid_size,
            0 <= self.row < config.grid_size,
        ensures
            r.0 == config.cell_x(self.col as int),
            r.1 == config.cell_y(self.row as int),
            r.2 == self.image.width,
            r.3 == self.image.height,
    {
        let (x, y) = config.cell_origin(self.col as u32, self.row as u32);
        (x, y, self.image.width, self.image.height)
    }
}

} // verus!

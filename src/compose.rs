use vstd::prelude::*;
use vstd::arithmetic::div_mod::{lemma_fundamental_div_mod, lemma_fundamental_div_mod_converse};
use crate::config::GridConfig;
use crate::piece::{Piece, RgbBuffer};

verus! {

/// The output picture: `width * height` RGB pixels in row-major order,
/// black until tiles are pasted in.
#[derive(Clone, Debug)]
pub struct Canvas {
    pub width: u32,
    pub height: u32,
    pub data: Vec<u8>,
}

/// `s` (rows of `stride` bytes) with the first `rows` rows of `src` (rows of
/// `ts` bytes) and `cols` bytes of the next one pasted at byte column `x3`
/// of row `y`.
pub open spec fn pasted_prefix(
    s: Seq<u8>,
    stride: int,
    x3: int,
    y: int,
    ts: int,
    src: Seq<u8>,
    rows: int,
    cols: int,
) -> Seq<u8> {
    Seq::new(
        s.len(),
        |i: int|
            {
                let r = i / stride;
                let j = i % stride;
                if x3 <= j < x3 + ts && (y <= r < y + rows || (r == y + rows && j < x3 + cols)) {
                    src[(r - y) * ts + (j - x3)]
                } else {
                    s[i]
                }
            },
    )
}

/// The pixels `data` of a `width`-pixel-wide canvas with `tile` pasted with
/// its top-left pixel at (`x`, `y`).
pub open spec fn pasted(data: Seq<u8>, width: int, x: int, y: int, tile: RgbBuffer) -> Seq<u8> {
    pasted_prefix(data, 3 * width, 3 * x, y, 3 * tile.width, tile.data@, tile.height as int, 0)
}

/// Byte `j` of row `r` sits at `r * stride + j`.
proof fn lemma_row_major(r: int, j: int, stride: int)
    requires
        0 <= j < stride,
    ensures
        (r * stride + j) / stride == r,
        (r * stride + j) % stride == j,
{
    lemma_fundamental_div_mod_converse(r * stride + j, stride, r, j);
}

proof fn lemma_row_bound(r: int, j: int, stride: int, h: int)
    requires
        0 <= r < h,
        0 <= j < stride,
    ensures
        0 <= r * stride + j < h * stride,
        h * stride == stride * h,
{
    assert(h * stride == stride * h) by (nonlinear_arith);
    assert(r * stride + j < (r + 1) * stride) by (nonlinear_arith)
        requires
            j < stride,
    ;
    assert((r + 1) * stride <= h * stride) by (nonlinear_arith)
        requires
            r + 1 <= h,
            0 <= stride,
    ;
    assert(0 <= r * stride) by (nonlinear_arith)
        requires
            0 <= r,
            0 <= stride,
    ;
}

impl Canvas {
    pub open spec fn wf(&self) -> bool {
        self.data@.len() == 3 * self.width * self.height
    }

    /// A blank (all zero) canvas of the configuration's size.
    pub fn new(config: &GridConfig) -> (r: Canvas)
        requires
            config.wf(),
        ensures
            r.wf(),
            r.width == config.canvas_width_spec(),
            r.height == config.canvas_height_spec(),
            forall|i: int| 0 <= i < r.data@.len() ==> r.data@[i] == 0,
    {
        let width = config.canvas_width();
        let height = config.canvas_height();
        assert(3 * width * height <= 0xffff_ffff && width * height <= 0xffff_ffff) by (nonlinear_arith)
            requires
                3 * config.canvas_width_spec() * config.canvas_height_spec() <= 0xffff_ffff,
                width == config.canvas_width_spec(),
                height == config.canvas_height_spec(),
        ;
        assert(3 * width * height == 3 * (width * height)) by (nonlinear_arith);
        let n = 3 * ((width as u64) * (height as u64));
        let data: Vec<u8> = vec![0u8; n as usize];
        Canvas { width, height, data }
    }

    /// Pastes `tile` with its top-left pixel at (`x`, `y`).
    pub fn blit(&mut self, x: u32, y: u32, tile: &RgbBuffer)
        requires
            old(self).wf(),
            tile.wf(),
            x + tile.width <= old(self).width,
            y + tile.height <= old(self).height,
        ensures
            final(self).wf(),
            final(self).width == old(self).width,
            final(self).height == old(self).height,
            final(self).data@ == pasted(old(self).data@, old(self).width as int, x as int, y as int, *tile),
    {
        let ghost s0 = self.data@;
        let ghost w0 = self.width;
        let ghost h0 = self.height;
        let ghost stride_i = 3 * self.width as int;
        let ghost ts_i = 3 * tile.width as int;
        if tile.width == 0 || tile.height == 0 {
            assert(self.data@ =~= pasted(s0, self.width as int, x as int, y as int, *tile));
            return;
        }
        assert(3 * self.width * self.height == stride_i * self.height) by (nonlinear_arith)
            requires
                stride_i == 3 * self.width,
        ;
        assert(stride_i <= stride_i * self.height) by (nonlinear_arith)
            requires
                self.height >= 1,
                stride_i >= 0,
        ;
        assert(ts_i * tile.height == 3 * tile.width * tile.height) by (nonlinear_arith)
            requires
                ts_i == 3 * tile.width,
        ;
        assert(ts_i <= ts_i * tile.height) by (nonlinear_arith)
            requires
                tile.height >= 1,
                ts_i >= 0,
        ;
        assert(self.data@.len() == self.data.len() && tile.data@.len() == tile.data.len());
        let stride: usize = 3 * self.width as usize;
        let ts: usize = 3 * tile.width as usize;
        let x3: usize = 3 * x as usize;
        let mut dy: usize = 0;
        while dy < tile.height as usize
            invariant
                self.wf(),
                tile.wf(),
                self.width == w0,
                self.height == h0,
                tile.width >= 1,
                tile.height >= 1,
                self.data@.len() <= usize::MAX,
                tile.data@.len() <= usize::MAX,
                s0.len() == self.data@.len(),
                stride == stride_i,
                stride_i == 3 * self.width,
                ts == ts_i,
                ts_i == 3 * tile.width,
                x3 == 3 * x,
                x + tile.width <= self.width,
                y + tile.height <= self.height,
                self.data@.len() == stride_i * self.height,
                tile.data@.len() == ts_i * tile.height,
                dy <= tile.height,
                self.data@ == pasted_prefix(s0, stride_i, 3 * x, y as int, ts_i, tile.data@, dy as int, 0),
            decreases tile.height - dy,
        {
            let ghost ty = (y + dy) as int;
            proof {
                lemma_row_bound(ty, 0, stride_i, self.height as int);
                lemma_row_bound(dy as int, 0, ts_i, tile.height as int);
                assert(self.data@ =~= pasted_prefix(s0, stride_i, 3 * x, y as int, ts_i, tile.data@, dy as int, 0));
            }
            let row_base: usize = (y as usize + dy) * stride;
            let src_base: usize = dy * ts;
            let mut jj: usize = 0;
            while jj < ts
                invariant
                    self.wf(),
                    tile.wf(),
                    self.width == w0,
                    self.height == h0,
                    tile.width >= 1,
                    tile.height >= 1,
                    self.data@.len() <= usize::MAX,
                    tile.data@.len() <= usize::MAX,
                    s0.len() == self.data@.len(),
                    stride == stride_i,
                    stride_i == 3 * self.width,
                    ts == ts_i,
                    ts_i == 3 * tile.width,
                    x3 == 3 * x,
                    x + tile.width <= self.width,
                    y + tile.height <= self.height,
                    self.data@.len() == stride_i * self.height,
                    tile.data@.len() == ts_i * tile.height,
                    dy < tile.height,
                    ty == y + dy,
                    row_base == ty * stride_i,
                    src_base == dy * ts_i,
                    jj <= ts,
                    self.data@ == pasted_prefix(s0, stride_i, 3 * x, y as int, ts_i, tile.data@, dy as int, jj as int),
                decreases ts - jj,
            {
                proof {
                    lemma_row_bound(ty, x3 + jj, stride_i, self.height as int);
                    lemma_row_bound(dy as int, jj as int, ts_i, tile.height as int);
                    lemma_row_major(ty, x3 + jj, stride_i);
                }
                let p = row_base + x3 + jj;
                let v = tile.data[src_base + jj];
                let ghost before = self.data@;
                self.data.set(p, v);
                proof {
                    let next = pasted_prefix(s0, stride_i, 3 * x, y as int, ts_i, tile.data@, dy as int, jj + 1);
                    assert forall|i: int| 0 <= i < self.data@.len() implies self.data@[i] == next[i] by {
                        lemma_fundamental_div_mod(i, stride_i);
                        if i != p {
                            if i / stride_i == ty && i % stride_i == x3 + jj {
                                assert(i == stride_i * ty + (x3 + jj));
                                assert(stride_i * ty == ty * stride_i) by (nonlinear_arith);
                                assert(false);
                            }
                        }
                    }
                    assert(self.data@ =~= next);
                }
                jj = jj + 1;
            }
            proof {
                let next = pasted_prefix(s0, stride_i, 3 * x, y as int, ts_i, tile.data@, dy + 1, 0);
                assert(self.data@ =~= next);
            }
            dy = dy + 1;
        }
    }
}

/// The tile is placed inside the grid and its rectangle lies on the canvas.
pub open spec fn drawable(p: Piece, config: GridConfig) -> bool {
    &&& 0 <= p.col < config.grid_size
    &&& 0 <= p.row < config.grid_size
    &&& p.image.wf()
    &&& config.cell_x(p.col as int) + p.image.width <= config.canvas_width_spec()
    &&& config.cell_y(p.row as int) + p.image.height <= config.canvas_height_spec()
}

/// The canvas bytes once the first `k` tiles are pasted in order, each
/// drawable one at its cell.
pub open spec fn composed(pieces: Seq<Piece>, config: GridConfig, k: int) -> Seq<u8>
    decreases k,
{
    if k <= 0 {
        Seq::new((3 * config.canvas_width_spec() * config.canvas_height_spec()) as nat, |i: int| 0u8)
    } else {
        let prev = composed(pieces, config, k - 1);
        let p = pieces[k - 1];
        if drawable(p, config) {
            pasted(
                prev,
                config.canvas_width_spec() as int,
                config.cell_x(p.col as int),
                config.cell_y(p.row as int),
                p.image,
            )
        } else {
            prev
        }
    }
}

impl RgbBuffer {
    /// Whether the pixel bytes match the dimensions.
    pub fn is_wf(&self) -> (r: bool)
        ensures
            r == self.wf(),
    {
        assert(self.data@.len() == self.data.len());
        let wh = match (self.width as u64).checked_mul(self.height as u64) {
            Some(v) => v,
            None => {
                assert(self.width * self.height > u64::MAX);
                assert(3 * self.width * self.height == 3 * (self.width * self.height)) by (nonlinear_arith);
                return false;
            },
        };
        assert(3 * self.width * self.height == 3 * (self.width * self.height)) by (nonlinear_arith);
        match wh.checked_mul(3) {
            Some(n) => self.data.len() as u128 == n as u128,
            None => false,
        }
    }
}

/// Pastes every tile whose cell lies in the grid into a blank canvas, in
/// order; unresolved tiles, and tiles whose rectangle would leave the canvas,
/// are left out and their area stays blank.
pub fn composite(pieces: &Vec<Piece>, config: &GridConfig) -> (r: Canvas)
    requires
        config.wf(),
    ensures
        r.wf(),
        r.width == config.canvas_width_spec(),
        r.height == config.canvas_height_spec(),
        r.data@ == composed(pieces@, *config, pieces@.len() as int),
{
    let mut canvas = Canvas::new(config);
    assert(canvas.data@ =~= composed(pieces@, *config, 0));
    let width = config.canvas_width();
    let height = config.canvas_height();
    let g = config.grid_size;
    let mut k: usize = 0;
    while k < pieces.len()
        invariant
            config.wf(),
            g == config.grid_size,
            width == config.canvas_width_spec(),
            height == config.canvas_height_spec(),
            k <= pieces@.len(),
            canvas.wf(),
            canvas.width == width,
            canvas.height == height,
            canvas.data@ == composed(pieces@, *config, k as int),
        decreases pieces@.len() - k,
    {
        let p = &pieces[k];
        if p.col >= 0 && p.row >= 0 && (p.col as u32) < g && (p.row as u32) < g && p.image.is_wf() {
            let (x, y, w, h) = p.rect(config);
            if (x as u64) + (w as u64) <= width as u64 && (y as u64) + (h as u64) <= height as u64 {
                canvas.blit(x, y, &p.image);
            }
        }
        k = k + 1;
    }
    canvas
}

} // verus!

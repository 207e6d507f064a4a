use vstd::prelude::*;
use vstd::wrapping::u64_specs;

verus! {

/// Seed mixed into every pixel of a border strip.
pub const HASH_MAGIC_NUMBER: u64 = 0x9e379967;

/// Divisor that quantizes an intensity before it is hashed, so that two copies
/// of one border that differ by a little noise still agree.
pub const QUANTUM: u8 = 10;

/// The four sides of a tile, in the order of a tile's fingerprint array.
#[derive(Clone, Copy, Debug, PartialEq, Eq, Structural)]
pub enum Side {
    Left,
    Top,
    Right,
    Bottom,
}

impl Side {
    pub open spec fn index_spec(self) -> int {
        match self {
            Side::Left => 0,
            Side::Top => 1,
            Side::Right => 2,
            Side::Bottom => 3,
        }
    }

    /// Position of this side's fingerprint in a tile's fingerprint array.
    pub fn index(self) -> (r: usize)
        ensures
            r == self.index_spec(),
    {
        match self {
            Side::Left => 0,
            Side::Top => 1,
            Side::Right => 2,
            Side::Bottom => 3,
        }
    }
}

/// One pixel folded into a running hash: the quantized intensity plus the seed
/// is added, then the sum is spread by a shift-left and a shift-right step, all
/// modulo 2^64.
pub open spec fn hash_step(h: u64, p: u8) -> u64 {
    let a = u64_specs::wrapping_add(h, u64_specs::wrapping_add((p / QUANTUM) as u64, HASH_MAGIC_NUMBER));
    let b = u64_specs::wrapping_add(a, u64_specs::wrapping_shl(a, 6));
    u64_specs::wrapping_add(b, u64_specs::wrapping_shr(b, 2))
}

/// The fingerprint of a strip of intensities, read in order from a zero hash.
pub open spec fn strip_hash(s: Seq<u8>) -> u64
    decreases s.len(),
{
    if s.len() == 0 {
        0
    } else {
        hash_step(strip_hash(s.drop_last()), s.last())
    }
}

/// Two strips that agree after quantization, pixel by pixel, have the same
/// fingerprint: noise within one quantum does not separate matching borders.
pub proof fn lemma_quantized_strips_agree(a: Seq<u8>, b: Seq<u8>)
    requires
        a.len() == b.len(),
        forall|i: int| 0 <= i < a.len() ==> #[trigger] a[i] / QUANTUM == b[i] / QUANTUM,
    ensures
        strip_hash(a) == strip_hash(b),
    decreases a.len(),
{
    if a.len() > 0 {
        let (ia, ib) = (a.drop_last(), b.drop_last());
        assert forall|i: int| 0 <= i < ia.len() implies #[trigger] ia[i] / QUANTUM == ib[i] / QUANTUM by {
            assert(ia[i] == a[i] && ib[i] == b[i]);
        }
        lemma_quantized_strips_agree(ia, ib);
        assert(a.last() / QUANTUM == b.last() / QUANTUM);
    }
}

/// Folds a border strip into its fingerprint.
pub fn compute_hash(strip: &[u8]) -> (r: u64)
    ensures
        r == strip_hash(strip@),
{
    let mut hash: u64 = 0;
    let mut i: usize = 0;
    while i < strip.len()
        invariant
            i <= strip@.len(),
            hash == strip_hash(strip@.subrange(0, i as int)),
        decreases strip@.len() - i,
    {
        let p = strip[i];
        hash = hash.wrapping_add((p as u64 / QUANTUM as u64).wrapping_add(HASH_MAGIC_NUMBER));
        hash = hash.wrapping_add(hash.wrapping_shl(6));
        hash = hash.wrapping_add(hash.wrapping_shr(2));
        proof {
            let s = strip@.subrange(0, i + 1);
            assert(s.drop_last() =~= strip@.subrange(0, i as int));
        }
        i = i + 1;
    }
    assert(strip@.subrange(0, i as int) =~= strip@);
    hash
}

/// Row `y` of a row-major `w` by `h` picture lies inside its pixels.
pub proof fn lemma_row_in_bounds(y: int, w: int, h: int)
    requires
        0 <= y < h,
        0 <= w,
    ensures
        0 <= y * w,
        y * w + w <= w * h,
        (y + 1) * w == y * w + w,
{
    assert(y * w + w == (y + 1) * w) by (nonlinear_arith);
    assert((y + 1) * w <= h * w) by (nonlinear_arith)
        requires
            y + 1 <= h,
            0 <= w,
    ;
    assert(h * w == w * h) by (nonlinear_arith);
    assert(0 <= y * w) by (nonlinear_arith)
        requires
            0 <= y,
            0 <= w,
    ;
}

/// A grayscale picture: `width * height` intensities in row-major order.
#[derive(Clone, Debug)]
pub struct GrayBuffer {
    pub width: u32,
    pub height: u32,
    pub pixels: Vec<u8>,
}

impl GrayBuffer {
    pub open spec fn wf(&self) -> bool {
        &&& 1 <= self.width
        &&& 1 <= self.height
        &&& self.pixels@.len() == self.width * self.height
    }

    pub open spec fn at(&self, x: int, y: int) -> u8 {
        self.pixels@[y * self.width + x]
    }

    /// The one-pixel border strip of a side: columns are read top to bottom,
    /// rows left to right.
    pub open spec fn edge(&self, side: Side) -> Seq<u8> {
        let w = self.width as int;
        let h = self.height as int;
        match side {
            Side::Left => Seq::new(h as nat, |y: int| self.at(0, y)),
            Side::Top => Seq::new(w as nat, |x: int| self.at(x, 0)),
            Side::Right => Seq::new(h as nat, |y: int| self.at(w - 1, y)),
            Side::Bottom => Seq::new(w as nat, |x: int| self.at(x, h - 1)),
        }
    }

    /// The fingerprints of a `w` by `h` picture with row-major pixels `px`.
    pub open spec fn fingerprints_of(w: u32, h: u32, px: Seq<u8>) -> Seq<u64> {
        seq![
            strip_hash(Seq::new(h as nat, |y: int| px[y * w + 0])),
            strip_hash(Seq::new(w as nat, |x: int| px[0 * w + x])),
            strip_hash(Seq::new(h as nat, |y: int| px[y * w + (w - 1)])),
            strip_hash(Seq::new(w as nat, |x: int| px[(h - 1) * w + x])),
        ]
    }

    /// The fingerprints of the four sides, in the order of `Side`.
    pub open spec fn fingerprints(&self) -> Seq<u64> {
        GrayBuffer::fingerprints_of(self.width, self.height, self.pixels@)
    }

    /// Copies the pixels of column `x`, top to bottom.
    fn column(&self, x: u32) -> (r: Vec<u8>)
        requires
            self.wf(),
            x < self.width,
        ensures
            r@ == Seq::new(self.height as nat, |y: int| self.at(x as int, y)),
    {
        let mut r: Vec<u8> = Vec::new();
        let w = self.width as usize;
        let mut y: usize = 0;
        let mut base: usize = 0;
        while y < self.height as usize
            invariant
                self.wf(),
                x < self.width,
                w == self.width,
                y <= self.height,
                base == y * w,
                r@ == Seq::new(y as nat, |j: int| self.at(x as int, j)),
            decreases self.height - y,
        {
            proof {
                lemma_row_in_bounds(y as int, w as int, self.height as int);
            }
            assert(self.pixels@.len() == self.pixels.len());
            r.push(self.pixels[base + x as usize]);
            proof {
                assert(r@ =~= Seq::new((y + 1) as nat, |j: int| self.at(x as int, j)));
            }
            base = base + w;
            y = y + 1;
        }
        r
    }

    /// Copies the pixels of row `y`, left to right.
    fn row(&self, y: u32) -> (r: Vec<u8>)
        requires
            self.wf(),
            y < self.height,
        ensures
            r@ == Seq::new(self.width as nat, |x: int| self.at(x, y as int)),
    {
        let w = self.width as usize;
        proof {
            lemma_row_in_bounds(y as int, w as int, self.height as int);
        }
        assert(self.pixels@.len() == self.pixels.len());
        let base = y as usize * w;
        let mut r: Vec<u8> = Vec::new();
        let mut x: usize = 0;
        while x < w
            invariant
                self.wf(),
                y < self.height,
                w == self.width,
                base == y * w,
                base + w <= self.pixels@.len(),
                self.pixels@.len() <= usize::MAX,
                x <= w,
                r@ == Seq::new(x as nat, |i: int| self.at(i, y as int)),
            decreases w - x,
        {
            r.push(self.pixels[base + x]);
            proof {
                assert(r@ =~= Seq::new((x + 1) as nat, |i: int| self.at(i, y as int)));
            }
            x = x + 1;
        }
        r
    }

    /// The border strip of one side.
    pub fn edge_strip(&self, side: Side) -> (r: Vec<u8>)
        requires
            self.wf(),
        ensures
            r@ == self.edge(side),
    {
        match side {
            Side::Left => self.column(0),
            Side::Top => self.row(0),
            Side::Right => self.column(self.width - 1),
            Side::Bottom => self.row(self.height - 1),
        }
    }

    /// The fingerprints of the four border strips: left, top, right, bottom.
    pub fn compute_edge_hashes(&self) -> (r: [u64; 4])
        requires
            self.wf(),
        ensures
            r@ == self.fingerprints(),
    {
        let l = compute_hash(self.edge_strip(Side::Left).as_slice());
        let t = compute_hash(self.edge_strip(Side::Top).as_slice());
        let rt = compute_hash(self.edge_strip(Side::Right).as_slice());
        let b = compute_hash(self.edge_strip(Side::Bottom).as_slice());
        let r = [l, t, rt, b];
        let ghost (w, h, px) = (self.width, self.height, self.pixels@);
        assert(self.edge(Side::Left) =~= Seq::new(h as nat, |y: int| px[y * w + 0]));
        assert(self.edge(Side::Top) =~= Seq::new(w as nat, |x: int| px[0 * w + x]));
        assert(self.edge(Side::Right) =~= Seq::new(h as nat, |y: int| px[y * w + (w - 1)]));
        assert(self.edge(Side::Bottom) =~= Seq::new(w as nat, |x: int| px[(h - 1) * w + x]));
        assert(r@ =~= self.fingerprints());
        r
    }
}

} // verus!

use vstd::prelude::*;

verus! {

/// A grayscale brightness grid: `width * height` pixels, row-major, one byte
/// of intensity per pixel.
pub struct Grid {
    pub width: usize,
    pub height: usize,
    pub data: Vec<u8>,
}

/// Whether pixel coordinate `(x, y)` lies inside a `w * h` grid.
pub open spec fn in_bounds(w: int, h: int, x: int, y: int) -> bool {
    0 <= x < w && 0 <= y < h
}

/// The intensity a pixel takes after one decay application with the rational
/// multiplier `num / den`: the value `v * num / den` rounded half-up, capped
/// at the top of the byte range.
pub open spec fn decay_val(v: int, num: int, den: int) -> int {
    let q = (2 * v * num + den) / (2 * den);
    if q > 255 {
        255
    } else {
        q
    }
}

/// The grid contents after decaying, in order, every in-bounds coordinate of
/// `pts` with the multiplier `num / den`; out-of-bounds coordinates are
/// skipped.
pub open spec fn decay_seq(g: Seq<u8>, w: int, h: int, pts: Seq<(int, int)>, num: int, den: int) -> Seq<u8>
    decreases pts.len(),
{
    if pts.len() == 0 {
        g
    } else {
        let prev = decay_seq(g, w, h, pts.drop_last(), num, den);
        let p = pts.last();
        if in_bounds(w, h, p.0, p.1) && 0 <= p.1 * w + p.0 < prev.len() {
            prev.update(p.1 * w + p.0, decay_val(prev[p.1 * w + p.0] as int, num, den) as u8)
        } else {
            prev
        }
    }
}

/// Decaying never changes the number of pixels.
pub proof fn lemma_decay_seq_len(g: Seq<u8>, w: int, h: int, pts: Seq<(int, int)>, num: int, den: int)
    ensures
        decay_seq(g, w, h, pts, num, den).len() == g.len(),
    decreases pts.len(),
{
    if pts.len() > 0 {
        lemma_decay_seq_len(g, w, h, pts.drop_last(), num, den);
    }
}

/// One rounded-down multiplication by `num / den < 1` never increases a
/// non-negative byte value.
pub proof fn lemma_decay_val_le(v: int, num: int, den: int)
    requires
        0 <= v <= 255,
        1 <= num < den,
    ensures
        0 <= decay_val(v, num, den) <= v,
{
    assert(2 * v * num + den < 2 * den * (v + 1)) by (nonlinear_arith)
        requires 0 <= v, 1 <= num < den;
    assert((2 * v * num + den) / (2 * den) <= v) by (nonlinear_arith)
        requires 0 <= v, 1 <= num < den, 2 * v * num + den < 2 * den * (v + 1);
    assert((2 * v * num + den) / (2 * den) >= 0) by (nonlinear_arith)
        requires 0 <= v, 1 <= num, 1 <= den;
}

/// Decay monotonicity: with a multiplier strictly below one, no pixel of the
/// grid ever gets brighter, whether it is touched once, several times, or not
/// at all.
pub proof fn lemma_decay_monotone(g: Seq<u8>, w: int, h: int, pts: Seq<(int, int)>, num: int, den: int)
    requires
        1 <= num < den,
    ensures
        decay_seq(g, w, h, pts, num, den).len() == g.len(),
        forall|i: int| 0 <= i < g.len() ==> decay_seq(g, w, h, pts, num, den)[i] <= g[i],
    decreases pts.len(),
{
    lemma_decay_seq_len(g, w, h, pts, num, den);
    if pts.len() > 0 {
        lemma_decay_monotone(g, w, h, pts.drop_last(), num, den);
        let prev = decay_seq(g, w, h, pts.drop_last(), num, den);
        let p = pts.last();
        if in_bounds(w, h, p.0, p.1) && 0 <= p.1 * w + p.0 < prev.len() {
            lemma_decay_val_le(prev[p.1 * w + p.0] as int, num, den);
        }
    }
}

impl Grid {
    /// The buffer holds exactly one byte per pixel.
    pub open spec fn wf(&self) -> bool {
        self.data@.len() == self.width * self.height
    }

    /// Builds a grid from raw row-major pixel data; rejects a buffer whose
    /// length does not match the dimensions.
    pub fn new(width: usize, height: usize, data: Vec<u8>) -> (r: Option<Grid>)
        ensures
            match r {
                Some(g) => g.wf() && g.width == width && g.height == height && g.data@ == data@,
                None => width * height != data@.len(),
            },
    {
        let buflen = data.len();
        match width.checked_mul(height) {
            Some(n) => {
                if n == buflen {
                    Some(Grid { width, height, data })
                } else {
                    None
                }
            },
            None => None,
        }
    }

    /// Reads the pixel at `(x, y)`.
    pub fn get(&self, x: usize, y: usize) -> (r: u8)
        requires
            self.wf(),
            x < self.width,
            y < self.height,
        ensures
            r == self.data@[y * self.width + x],
    {
        let n = self.data.len();
        proof {
            assert((y as int) * (self.width as int) + x < (self.height as int) * (self.width as int))
                by (nonlinear_arith)
                requires x < self.width, y < self.height;
            assert((self.height as int) * (self.width as int) == (self.width as int) * (self.height as int))
                by (nonlinear_arith);
        }
        self.data[y * self.width + x]
    }
}

/// Inverts every pixel of the grid (`255 - v`), so that originally dark,
/// ink-rich regions score as high brightness.
pub fn flip_gray_image(image: &mut Grid)
    requires
        old(image).wf(),
    ensures
        final(image).wf(),
        final(image).width == old(image).width,
        final(image).height == old(image).height,
        final(image).data@.len() == old(image).data@.len(),
        forall|i: int| 0 <= i < final(image).data@.len() ==> final(image).data@[i] == 255 - old(image).data@[i],
{
    let n = image.data.len();
    let mut i: usize = 0;
    while i < n
        invariant
            n == image.data@.len(),
            image.wf(),
            image.width == old(image).width,
            image.height == old(image).height,
            image.data@.len() == old(image).data@.len(),
            i <= n,
            forall|k: int| 0 <= k < i ==> image.data@[k] == 255 - old(image).data@[k],
            forall|k: int| i <= k < n ==> image.data@[k] == old(image).data@[k],
        decreases n - i,
    {
        let v = image.data[i];
        image.data.set(i, 255 - v);
        i = i + 1;
    }
}

/// Decays, in order, every in-bounds pixel named by `coords` by the rational
/// multiplier `num / den`, rounding half-up and skipping out-of-bounds
/// coordinates; the grid's only mutator besides the initial inversion.
pub fn scale_pixels(img: &mut Grid, coords: &Vec<(i32, i32)>, num: u64, den: u64)
    requires
        old(img).wf(),
        1 <= num <= 1_000_000_000,
        1 <= den <= 1_000_000_000,
    ensures
        final(img).wf(),
        final(img).width == old(img).width,
        final(img).height == old(img).height,
        final(img).data@ == decay_seq(
            old(img).data@,
            old(img).width as int,
            old(img).height as int,
            coords@.map_values(|p: (i32, i32)| (p.0 as int, p.1 as int)),
            num as int,
            den as int,
        ),
{
    let w = img.width;
    let h = img.height;
    let ghost pts = coords@.map_values(|p: (i32, i32)| (p.0 as int, p.1 as int));
    let n = coords.len();
    let mut i: usize = 0;
    while i < n
        invariant
            img.wf(),
            img.width == old(img).width,
            img.height == old(img).height,
            w == img.width,
            h == img.height,
            1 <= num <= 1_000_000_000,
            1 <= den <= 1_000_000_000,
            i <= n,
            n == coords@.len(),
            pts == coords@.map_values(|p: (i32, i32)| (p.0 as int, p.1 as int)),
            img.data@ == decay_seq(old(img).data@, w as int, h as int, pts.take(i as int), num as int, den as int),
        decreases n - i,
    {
        let (x, y) = coords[i];
        proof {
            assert(pts.take(i + 1).drop_last() =~= pts.take(i as int));
            assert(pts.take(i + 1).last() == (x as int, y as int));
        }
        if x >= 0 && y >= 0 && (x as usize) < w && (y as usize) < h {
            let buflen = img.data.len();
            proof {
                assert((y as int) * (w as int) + (x as int) < (h as int) * (w as int))
                    by (nonlinear_arith)
                    requires 0 <= (x as int) < (w as int), 0 <= (y as int) < (h as int);
                assert((h as int) * (w as int) == (w as int) * (h as int)) by (nonlinear_arith);
                lemma_decay_seq_len(old(img).data@, w as int, h as int, pts.take(i as int), num as int, den as int);
                assert(buflen == (w as int) * (h as int));
            }
            let idx = (y as usize) * w + (x as usize);
            let v = img.data[idx] as u64;
            proof {
                assert(2 * (v as int) * (num as int) <= 510_000_000_000) by (nonlinear_arith)
                    requires 0 <= v <= 255, 0 <= num <= 1_000_000_000;
            }
            let q = (2 * v * num + den) / (2 * den);
            let nv: u8 = if q > 255 { 255 } else { q as u8 };
            image_set(img, idx, nv);
        }
        i = i + 1;
    }
    proof {
        assert(pts.take(n as int) =~= pts);
    }
}

/// Writes one byte of the grid's buffer.
fn image_set(img: &mut Grid, idx: usize, v: u8)
    requires
        old(img).wf(),
        idx < old(img).data@.len(),
    ensures
        final(img).wf(),
        final(img).width == old(img).width,
        final(img).height == old(img).height,
        final(img).data@ == old(img).data@.update(idx as int, v),
{
    img.data.set(idx, v);
}

} // verus!

//! The output pixel buffer: an RGBA canvas stored row-major, one `Pixel`
//! per coordinate, into which placed source images are copied.

use vstd::prelude::*;

verus! {

/// One RGBA pixel.
#[derive(Clone, Copy, Debug, PartialEq, Eq, Structural)]
pub struct Pixel {
    pub r: u8,
    pub g: u8,
    pub b: u8,
    pub a: u8,
}

/// The background of a fresh canvas: fully transparent black.
pub open spec fn background() -> Pixel {
    Pixel { r: 0, g: 0, b: 0, a: 0 }
}

/// A `width` by `height` image, its pixels stored row by row.
pub struct PixelBuffer {
    pub width: u32,
    pub height: u32,
    pub pixels: Vec<Pixel>,
}

/// The row-major position of coordinate `(x, y)` in a buffer of width `w`.
pub open spec fn pix_index(w: int, x: int, y: int) -> int {
    y * w + x
}

impl PixelBuffer {
    /// The pixel vector holds exactly one entry per coordinate.
    pub open spec fn wf(self) -> bool {
        self.pixels@.len() == self.width * self.height
    }

    /// The pixel at coordinate `(x, y)`.
    pub open spec fn pixel_at(self, x: int, y: int) -> Pixel {
        self.pixels@[pix_index(self.width as int, x, y)]
    }

    /// A fresh all-background canvas of the given dimensions.
    pub fn new(width: u32, height: u32) -> (buf: PixelBuffer)
        requires
            width * height <= usize::MAX,
        ensures
            buf.wf(),
            buf.width == width,
            buf.height == height,
            forall|x: int, y: int| 0 <= x < width && 0 <= y < height
                ==> #[trigger] buf.pixel_at(x, y) == background(),
    {
        let n: usize = (width as usize) * (height as usize);
        let mut pixels: Vec<Pixel> = Vec::new();
        let mut i: usize = 0;
        while i < n
            invariant
                i <= n,
                pixels@.len() == i,
                forall|j: int| 0 <= j < i ==> #[trigger] pixels@[j] == background(),
            decreases n - i,
        {
            pixels.push(Pixel { r: 0, g: 0, b: 0, a: 0 });
            i += 1;
        }
        let buf = PixelBuffer { width, height, pixels };
        proof {
            assert forall|x: int, y: int| 0 <= x < width && 0 <= y < height
                implies #[trigger] buf.pixel_at(x, y) == background() by {
                lemma_pix_index_bounds(width as int, height as int, x, y);
            }
        }
        buf
    }
}

/// Row-major indices of in-range coordinates stay inside the buffer.
pub proof fn lemma_pix_index_bounds(w: int, h: int, x: int, y: int)
    by (nonlinear_arith)
    requires
        0 <= x < w,
        0 <= y < h,
    ensures
        0 <= y * w + x < w * h,
{
}

/// Distinct in-range coordinates have distinct row-major indices.
pub proof fn lemma_pix_index_injective(w: int, x1: int, y1: int, x2: int, y2: int)
    by (nonlinear_arith)
    requires
        0 <= x1 < w,
        0 <= x2 < w,
        0 <= y1,
        0 <= y2,
        y1 * w + x1 == y2 * w + x2,
    ensures
        x1 == x2,
        y1 == y2,
{
}

/// Each buffer position is the row-major index of exactly one coordinate.
pub proof fn lemma_pix_index_decompose(w: int, h: int, k: int)
    by (nonlinear_arith)
    requires
        0 <= w,
        0 <= h,
        0 <= k < w * h,
    ensures
        0 <= k % w < w,
        0 <= k / w < h,
        pix_index(w, k % w, k / w) == k,
{
}

/// Copy every pixel of `src` onto `dest`, the top-left corner of `src`
/// landing at `(ox, oy)`. Pixels of `dest` outside that region keep their
/// value.
#[verifier::loop_isolation(false)]
pub fn blit(dest: &mut PixelBuffer, src: &PixelBuffer, ox: u32, oy: u32)
    requires
        old(dest).wf(),
        src.wf(),
        ox + src.width <= old(dest).width,
        oy + src.height <= old(dest).height,
    ensures
        final(dest).wf(),
        final(dest).width == old(dest).width,
        final(dest).height == old(dest).height,
        forall|x: int, y: int| 0 <= x < src.width && 0 <= y < src.height
            ==> final(dest).pixel_at(ox + x, oy + y) == #[trigger] src.pixel_at(x, y),
        forall|x: int, y: int| 0 <= x < old(dest).width && 0 <= y < old(dest).height
            && !(ox <= x < ox + src.width && oy <= y < oy + src.height)
            ==> #[trigger] final(dest).pixel_at(x, y) == old(dest).pixel_at(x, y),
{
    let sw = src.width;
    let sh = src.height;
    let dw = dest.width;
    let dh = dest.height;
    let mut sy: u32 = 0;
    while sy < sh
        invariant
            sy <= sh,
            dest.wf(),
            dest.width == dw,
            dest.height == dh,
            forall|x: int, y: int| 0 <= x < sw && 0 <= y < sy
                ==> dest.pixel_at(ox + x, oy + y) == #[trigger] src.pixel_at(x, y),
            forall|x: int, y: int| 0 <= x < dw && 0 <= y < dh
                && !(ox <= x < ox + sw && oy <= y < oy + sy)
                ==> #[trigger] dest.pixel_at(x, y) == old(dest).pixel_at(x, y),
        decreases sh - sy,
    {
        let mut sx: u32 = 0;
        while sx < sw
            invariant
                sx <= sw,
                sy < sh,
                dest.wf(),
                dest.width == dw,
                dest.height == dh,
                forall|x: int, y: int| 0 <= x < sw && 0 <= y < sy
                    ==> dest.pixel_at(ox + x, oy + y) == #[trigger] src.pixel_at(x, y),
                forall|x: int| 0 <= x < sx
                    ==> dest.pixel_at(ox + x, oy + sy) == #[trigger] src.pixel_at(x, sy as int),
                forall|x: int, y: int| 0 <= x < dw && 0 <= y < dh
                    && !(ox <= x < ox + sw && oy <= y < oy + sy)
                    && !(y == oy + sy && ox <= x < ox + sx)
                    ==> #[trigger] dest.pixel_at(x, y) == old(dest).pixel_at(x, y),
            decreases sw - sx,
        {
            let dx = ox + sx;
            let dy = oy + sy;
            let dn = dest.pixels.len();
            let sn = src.pixels.len();
            proof {
                lemma_pix_index_bounds(dw as int, dh as int, dx as int, dy as int);
                lemma_pix_index_bounds(sw as int, sh as int, sx as int, sy as int);
                assert(dn == dw * dh);
                assert(sn == sw * sh);
            }
            let di: usize = (dy as usize) * (dw as usize) + (dx as usize);
            let si: usize = (sy as usize) * (sw as usize) + (sx as usize);
            let ghost prev = *dest;
            let p = src.pixels[si];
            dest.pixels[di] = p;
            proof {
                assert(dest.pixel_at(dx as int, dy as int) == src.pixel_at(sx as int, sy as int));
                assert forall|x: int, y: int| 0 <= x < dw && 0 <= y < dh && !(x == dx as int && y == dy as int)
                    implies #[trigger] dest.pixel_at(x, y) == prev.pixel_at(x, y) by {
                    lemma_pix_index_bounds(dw as int, dh as int, x, y);
                    if pix_index(dw as int, x, y) == di as int {
                        lemma_pix_index_injective(dw as int, x, y, dx as int, dy as int);
                        assert(false);
                    }
                }
            }
            sx += 1;
        }
        sy += 1;
    }
}

} // verus!

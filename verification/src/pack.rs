//! The packing strategies: drive the allocator over a sequence of decoded
//! source images and composite every placed image into one output canvas.
//! Canvas dimensions are either supplied by the caller or derived from the
//! sources.

use vstd::prelude::*;
use crate::atlas::{Atlas, Rect, placement_ok, rects_separated, rects_in_bounds, rect_in_bounds, lemma_placement_keeps_separation, lemma_placement_deterministic};
use crate::buffer::{PixelBuffer, Pixel, background, blit, lemma_pix_index_decompose};

verus! {

/// The rectangles of the successful placements, in placement order.
pub open spec fn placed_of(placements: Seq<Option<Rect>>) -> Seq<Rect>
    decreases placements.len(),
{
    if placements.len() == 0 {
        Seq::<Rect>::empty()
    } else {
        match placements.last() {
            Some(r) => placed_of(placements.drop_last()).push(r),
            None => placed_of(placements.drop_last()),
        }
    }
}

/// Each entry of `placements` is what first-fit placement of the matching
/// `(w, h)` request returns against the rectangles placed before it.
pub open spec fn layout_ok(sizes: Seq<(int, int)>, aw: int, ah: int, pad: int, placements: Seq<Option<Rect>>) -> bool {
    &&& placements.len() == sizes.len()
    &&& forall|i: int| 0 <= i < sizes.len()
            ==> placement_ok(placed_of(placements.take(i)), aw, ah, sizes[i].0, sizes[i].1, pad, #[trigger] placements[i])
}

/// The colour of output coordinate `(x, y)`: the pixel of the last placed
/// image covering it, or the background where no placed image does.
pub open spec fn composite_pixel(images: Seq<PixelBuffer>, placements: Seq<Option<Rect>>, x: int, y: int) -> Pixel
    decreases placements.len(),
{
    if placements.len() == 0 || images.len() != placements.len() {
        background()
    } else {
        let i = placements.len() - 1;
        let img = images[i];
        match placements[i] {
            Some(r) => if r.x <= x < r.x + img.width && r.y <= y < r.y + img.height {
                img.pixel_at(x - r.x, y - r.y)
            } else {
                composite_pixel(images.drop_last(), placements.drop_last(), x, y)
            },
            None => composite_pixel(images.drop_last(), placements.drop_last(), x, y),
        }
    }
}

/// Every pixel of `out` is the composite of the placed images.
pub open spec fn buffer_matches(images: Seq<PixelBuffer>, placements: Seq<Option<Rect>>, out: PixelBuffer) -> bool {
    forall|x: int, y: int| 0 <= x < out.width && 0 <= y < out.height
        ==> #[trigger] out.pixel_at(x, y) == composite_pixel(images, placements, x, y)
}

/// Every source image is well formed.
pub open spec fn all_wf(images: Seq<PixelBuffer>) -> bool {
    forall|i: int| 0 <= i < images.len() ==> (#[trigger] images[i]).wf()
}

/// The per-image placement requests, as width-height pairs.
pub open spec fn sizes_of(requests: Seq<(u32, u32)>) -> Seq<(int, int)> {
    requests.map_values(|p: (u32, u32)| (p.0 as int, p.1 as int))
}

/// The true dimensions of each source image, as width-height pairs.
pub open spec fn dims_of(images: Seq<PixelBuffer>) -> Seq<(int, int)> {
    images.map_values(|img: PixelBuffer| (img.width as int, img.height as int))
}

/// What fixed-size packing returns: a canvas of the requested dimensions
/// whose pixels composite the first-fit layout of the source dimensions.
pub open spec fn pack_fixed_post(images: Seq<PixelBuffer>, aw: int, ah: int, pad: int, out: PixelBuffer) -> bool {
    &&& out.wf()
    &&& out.width == aw
    &&& out.height == ah
    &&& exists|placements: Seq<Option<Rect>>|
            #[trigger] layout_ok(dims_of(images), aw, ah, pad, placements)
            && buffer_matches(images, placements, out)
}

/// Appending a placement appends its rectangle, if any, to the placed list.
pub proof fn lemma_placed_of_push(placements: Seq<Option<Rect>>, r: Option<Rect>)
    ensures
        placed_of(placements.push(r)) == match r {
            Some(rect) => placed_of(placements).push(rect),
            None => placed_of(placements),
        },
{
    assert(placements.push(r).drop_last() =~= placements);
    assert(placements.push(r).last() == r);
}

/// A layout of every request but the last is a layout of the shorter list.
pub proof fn lemma_layout_ok_drop_last(sizes: Seq<(int, int)>, aw: int, ah: int, pad: int, placements: Seq<Option<Rect>>)
    requires
        layout_ok(sizes, aw, ah, pad, placements),
        sizes.len() > 0,
    ensures
        layout_ok(sizes.drop_last(), aw, ah, pad, placements.drop_last()),
{
    assert forall|i: int| 0 <= i < sizes.drop_last().len()
        implies placement_ok(placed_of(placements.drop_last().take(i)), aw, ah, sizes.drop_last()[i].0, sizes.drop_last()[i].1, pad, #[trigger] placements.drop_last()[i]) by {
        assert(placements.drop_last().take(i) =~= placements.take(i));
        assert(placements.drop_last()[i] == placements[i]);
        assert(sizes.drop_last()[i] == sizes[i]);
        assert(placement_ok(placed_of(placements.take(i)), aw, ah, sizes[i].0, sizes[i].1, pad, placements[i]));
    }
}

/// Pack `images` onto a fresh `atlas_width` by `atlas_height` canvas, asking
/// the allocator for `requests[i]` when placing `images[i]` and compositing
/// each placed image at its returned position.
#[verifier::loop_isolation(false)]
fn pack_requests(images: &Vec<PixelBuffer>, requests: &Vec<(u32, u32)>, atlas_width: u32, atlas_height: u32, padding: u32) -> (out: PixelBuffer)
    requires
        all_wf(images@),
        requests@.len() == images@.len(),
        atlas_width * atlas_height <= usize::MAX,
        forall|i: int| 0 <= i < images@.len()
            ==> images@[i].width <= (#[trigger] requests@[i]).0 && images@[i].height <= requests@[i].1,
    ensures
        out.wf(),
        out.width == atlas_width,
        out.height == atlas_height,
        exists|placements: Seq<Option<Rect>>|
            #[trigger] layout_ok(sizes_of(requests@), atlas_width as int, atlas_height as int, padding as int, placements)
            && buffer_matches(images@, placements, out),
{
    let mut atlas = Atlas::new(atlas_width, atlas_height);
    let mut out = PixelBuffer::new(atlas_width, atlas_height);
    let ghost mut placements: Seq<Option<Rect>> = Seq::<Option<Rect>>::empty();
    proof {
        assert(images@.take(0) =~= Seq::<PixelBuffer>::empty());
        assert(atlas.rects@ == placed_of(placements));
    }
    let mut i: usize = 0;
    while i < images.len()
        invariant
            i <= images@.len(),
            atlas.width == atlas_width,
            atlas.height == atlas_height,
            out.wf(),
            out.width == atlas_width,
            out.height == atlas_height,
            placements.len() == i,
            atlas.rects@ == placed_of(placements),
            forall|j: int| 0 <= j < i
                ==> placement_ok(placed_of(placements.take(j)), atlas_width as int, atlas_height as int, requests@[j].0 as int, requests@[j].1 as int, padding as int, #[trigger] placements[j]),
            buffer_matches(images@.take(i as int), placements, out),
        decreases images@.len() - i,
    {
        let img = &images[i];
        let request = requests[i];
        let ghost prev_placements = placements;
        let ghost prev_out = out;
        let placed = atlas.add_rect(request.0, request.1, padding);
        if let Some(rect) = placed {
            blit(&mut out, img, rect.x, rect.y);
        }
        proof {
            placements = placements.push(placed);
            lemma_placed_of_push(prev_placements, placed);
            assert(placements.take(i as int) =~= prev_placements);
            assert forall|j: int| 0 <= j < i + 1
                implies placement_ok(placed_of(placements.take(j)), atlas_width as int, atlas_height as int, requests@[j].0 as int, requests@[j].1 as int, padding as int, #[trigger] placements[j]) by {
                if j < i {
                    assert(placements.take(j) =~= prev_placements.take(j));
                    assert(placements[j] == prev_placements[j]);
                    assert(placement_ok(placed_of(prev_placements.take(j)), atlas_width as int, atlas_height as int, requests@[j].0 as int, requests@[j].1 as int, padding as int, prev_placements[j]));
                } else {
                    assert(placements[j] == placed);
                }
            }
            let ghost imgs1 = images@.take(i + 1);
            assert(imgs1.drop_last() =~= images@.take(i as int));
            assert(placements.drop_last() =~= prev_placements);
            assert(imgs1.len() == i + 1 && placements.len() == i + 1);
            assert(imgs1[i as int] == images@[i as int]);
            assert forall|x: int, y: int| 0 <= x < out.width && 0 <= y < out.height
                implies #[trigger] out.pixel_at(x, y) == composite_pixel(imgs1, placements, x, y) by {
                match placed {
                    Some(rect) => {
                        let img_i = images@[i as int];
                        if rect.x <= x < rect.x + img_i.width && rect.y <= y < rect.y + img_i.height {
                            assert(img_i.pixel_at(x - rect.x, y - rect.y) == out.pixel_at(rect.x + (x - rect.x), rect.y + (y - rect.y)));
                            assert(out.pixel_at(x, y) == img_i.pixel_at(x - rect.x, y - rect.y));
                        } else {
                            assert(out.pixel_at(x, y) == prev_out.pixel_at(x, y));
                            assert(prev_out.pixel_at(x, y) == composite_pixel(images@.take(i as int), prev_placements, x, y));
                        }
                    }
                    None => {
                        assert(out == prev_out);
                        assert(out.pixel_at(x, y) == composite_pixel(images@.take(i as int), prev_placements, x, y));
                    }
                }
            }
        }
        i += 1;
    }
    proof {
        assert(images@.take(images@.len() as int) =~= images@);
        let ghost sizes = sizes_of(requests@);
        assert(sizes.len() == requests@.len());
        assert forall|j: int| 0 <= j < sizes.len()
            implies placement_ok(placed_of(placements.take(j)), atlas_width as int, atlas_height as int, sizes[j].0, sizes[j].1, padding as int, #[trigger] placements[j]) by {
            assert(sizes[j] == (requests@[j].0 as int, requests@[j].1 as int));
        }
        assert(layout_ok(sizes, atlas_width as int, atlas_height as int, padding as int, placements));
        assert(buffer_matches(images@, placements, out));
    }
    out
}

/// The dimensions of each image, as the allocator requests for fixed-size
/// and grid packing.
fn request_dims(images: &Vec<PixelBuffer>) -> (v: Vec<(u32, u32)>)
    ensures
        v@.len() == images@.len(),
        forall|i: int| 0 <= i < images@.len()
            ==> #[trigger] v@[i] == (images@[i].width, images@[i].height),
{
    let mut v: Vec<(u32, u32)> = Vec::new();
    let mut i: usize = 0;
    while i < images.len()
        invariant
            i <= images@.len(),
            v@.len() == i,
            forall|j: int| 0 <= j < i
                ==> #[trigger] v@[j] == (images@[j].width, images@[j].height),
        decreases images@.len() - i,
    {
        let img = &images[i];
        v.push((img.width, img.height));
        i += 1;
    }
    v
}

/// Fixed-size packing: the canvas dimensions are supplied by the caller;
/// every image that the allocator can place is composited at its returned
/// position, the rest are dropped from the output.
pub fn pack_images(images: &Vec<PixelBuffer>, atlas_width: u32, atlas_height: u32, padding: u32) -> (out: PixelBuffer)
    requires
        all_wf(images@),
        atlas_width * atlas_height <= usize::MAX,
    ensures
        pack_fixed_post(images@, atlas_width as int, atlas_height as int, padding as int, out),
{
    let requests = request_dims(images);
    let out = pack_requests(images, &requests, atlas_width, atlas_height, padding);
    proof {
        let p = choose|p: Seq<Option<Rect>>|
            #[trigger] layout_ok(sizes_of(requests@), atlas_width as int, atlas_height as int, padding as int, p)
            && buffer_matches(images@, p, out);
        assert(sizes_of(requests@) =~= dims_of(images@));
        assert(layout_ok(dims_of(images@), atlas_width as int, atlas_height as int, padding as int, p)
            && buffer_matches(images@, p, out));
    }
    out
}

/// Law (determinism): a request list has exactly one layout meeting the
/// first-fit contract, so packing the same ordered sources with the same
/// parameters always places them identically.
pub proof fn lemma_layout_deterministic(sizes: Seq<(int, int)>, aw: int, ah: int, pad: int, p1: Seq<Option<Rect>>, p2: Seq<Option<Rect>>)
    requires
        layout_ok(sizes, aw, ah, pad, p1),
        layout_ok(sizes, aw, ah, pad, p2),
    ensures
        p1 == p2,
    decreases sizes.len(),
{
    if sizes.len() == 0 {
        assert(p1 =~= p2);
    } else {
        lemma_layout_ok_drop_last(sizes, aw, ah, pad, p1);
        lemma_layout_ok_drop_last(sizes, aw, ah, pad, p2);
        lemma_layout_deterministic(sizes.drop_last(), aw, ah, pad, p1.drop_last(), p2.drop_last());
        let n = sizes.len() - 1;
        assert(p1.take(n) =~= p1.drop_last());
        assert(p2.take(n) =~= p2.drop_last());
        assert(placement_ok(placed_of(p1.take(n)), aw, ah, sizes[n].0, sizes[n].1, pad, p1[n]));
        assert(placement_ok(placed_of(p2.take(n)), aw, ah, sizes[n].0, sizes[n].1, pad, p2[n]));
        lemma_placement_deterministic(placed_of(p1.take(n)), aw, ah, sizes[n].0, sizes[n].1, pad, p1[n], p2[n]);
        assert forall|i: int| 0 <= i < p1.len() implies p1[i] == p2[i] by {
            if i < n {
                assert(p1.drop_last()[i] == p1[i]);
                assert(p2.drop_last()[i] == p2[i]);
            }
        }
        assert(p1 =~= p2);
    }
}

/// Law (separation and bounds): every layout meeting the first-fit contract
/// leaves its placed rectangles pairwise free of padding-expanded overlap,
/// and each inside the canvas margins.
pub proof fn lemma_layout_separated(sizes: Seq<(int, int)>, aw: int, ah: int, pad: int, placements: Seq<Option<Rect>>)
    requires
        layout_ok(sizes, aw, ah, pad, placements),
    ensures
        rects_separated(placed_of(placements), pad),
        rects_in_bounds(placed_of(placements), aw, ah, pad),
    decreases placements.len(),
{
    if placements.len() == 0 {
    } else {
        lemma_layout_ok_drop_last(sizes, aw, ah, pad, placements);
        lemma_layout_separated(sizes.drop_last(), aw, ah, pad, placements.drop_last());
        let n = placements.len() - 1;
        assert(placements.take(n) =~= placements.drop_last());
        assert(placement_ok(placed_of(placements.take(n)), aw, ah, sizes[n].0, sizes[n].1, pad, placements[n]));
        let prev = placed_of(placements.drop_last());
        match placements.last() {
            Some(rect) => {
                assert(placements[n] == placements.last());
                lemma_placement_keeps_separation(prev, aw, ah, sizes[n].0, sizes[n].1, pad, rect);
                assert(placed_of(placements) == prev.push(rect));
                assert forall|q: int| 0 <= q < placed_of(placements).len()
                    implies rect_in_bounds(#[trigger] placed_of(placements)[q], aw, ah, pad) by {
                    if q < prev.len() {
                        assert(placed_of(placements)[q] == prev[q]);
                    } else {
                        assert(placed_of(placements)[q] == rect);
                    }
                }
            }
            None => {
                assert(placed_of(placements) == prev);
            }
        }
    }
}

/// Law (determinism): fixed-size packing of the same ordered sources with
/// the same canvas and padding yields byte-identical output.
pub proof fn lemma_pack_fixed_deterministic(images: Seq<PixelBuffer>, aw: int, ah: int, pad: int, out1: PixelBuffer, out2: PixelBuffer)
    requires
        pack_fixed_post(images, aw, ah, pad, out1),
        pack_fixed_post(images, aw, ah, pad, out2),
    ensures
        out1.width == out2.width,
        out1.height == out2.height,
        out1.pixels@ == out2.pixels@,
{
    let p1 = choose|p: Seq<Option<Rect>>|
        #[trigger] layout_ok(dims_of(images), aw, ah, pad, p) && buffer_matches(images, p, out1);
    let p2 = choose|p: Seq<Option<Rect>>|
        #[trigger] layout_ok(dims_of(images), aw, ah, pad, p) && buffer_matches(images, p, out2);
    lemma_layout_deterministic(dims_of(images), aw, ah, pad, p1, p2);
    assert forall|k: int| 0 <= k < out1.pixels@.len() implies out1.pixels@[k] == out2.pixels@[k] by {
        lemma_pix_index_decompose(aw, ah, k);
        let x = k % aw;
        let y = k / aw;
        assert(out1.pixel_at(x, y) == composite_pixel(images, p1, x, y));
        assert(out2.pixel_at(x, y) == composite_pixel(images, p2, x, y));
    }
    assert(out1.pixels@ =~= out2.pixels@);
}

/// Law: packing zero sources fills no pixel, so the canvas comes back all
/// background, at its requested dimensions, and is not an error.
pub proof fn lemma_pack_empty_background(aw: int, ah: int, pad: int, out: PixelBuffer)
    requires
        pack_fixed_post(Seq::<PixelBuffer>::empty(), aw, ah, pad, out),
    ensures
        out.width == aw,
        out.height == ah,
        forall|x: int, y: int| 0 <= x < aw && 0 <= y < ah
            ==> #[trigger] out.pixel_at(x, y) == background(),
{
    let images = Seq::<PixelBuffer>::empty();
    let p = choose|p: Seq<Option<Rect>>|
        #[trigger] layout_ok(dims_of(images), aw, ah, pad, p) && buffer_matches(images, p, out);
    assert(dims_of(images).len() == 0);
    assert(p.len() == 0);
    assert forall|x: int, y: int| 0 <= x < aw && 0 <= y < ah
        implies #[trigger] out.pixel_at(x, y) == background() by {
        assert(out.pixel_at(x, y) == composite_pixel(images, p, x, y));
    }
}

/// The width of the cell that every source fits in: the maximum over the
/// images of `width + 2 * pad`.
pub open spec fn cell_w(images: Seq<PixelBuffer>, pad: int) -> int
    decreases images.len(),
{
    if images.len() == 0 {
        0
    } else {
        let rest = cell_w(images.drop_last(), pad);
        let this = images.last().width + 2 * pad;
        if this > rest { this } else { rest }
    }
}

/// The height of the cell that every source fits in: the maximum over the
/// images of `height + 2 * pad`.
pub open spec fn cell_h(images: Seq<PixelBuffer>, pad: int) -> int
    decreases images.len(),
{
    if images.len() == 0 {
        0
    } else {
        let rest = cell_h(images.drop_last(), pad);
        let this = images.last().height + 2 * pad;
        if this > rest { this } else { rest }
    }
}

/// The cell dimensions are maxima: every image plus both margins fits one.
pub proof fn lemma_cell_dims_ge(images: Seq<PixelBuffer>, pad: int, i: int)
    requires
        0 <= i < images.len(),
    ensures
        cell_w(images, pad) >= images[i].width + 2 * pad,
        cell_h(images, pad) >= images[i].height + 2 * pad,
    decreases images.len(),
{
    if i == images.len() - 1 {
        assert(images.last() == images[i]);
    } else {
        lemma_cell_dims_ge(images.drop_last(), pad, i);
        assert(images.drop_last()[i] == images[i]);
    }
}

/// The cell dimensions are never negative.
pub proof fn lemma_cell_dims_nonneg(images: Seq<PixelBuffer>, pad: int)
    requires
        0 <= pad,
    ensures
        0 <= cell_w(images, pad),
        0 <= cell_h(images, pad),
    decreases images.len(),
{
    if images.len() > 0 {
        lemma_cell_dims_nonneg(images.drop_last(), pad);
    }
}

/// The largest `width + 2 * padding` and `height + 2 * padding` over the
/// images.
fn max_cell_dims(images: &Vec<PixelBuffer>, padding: u32) -> (cells: (u64, u64))
    ensures
        cells.0 == cell_w(images@, padding as int),
        cells.1 == cell_h(images@, padding as int),
{
    let mut cw: u64 = 0;
    let mut ch: u64 = 0;
    let mut i: usize = 0;
    proof {
        assert(images@.take(0) =~= Seq::<PixelBuffer>::empty());
    }
    while i < images.len()
        invariant
            i <= images@.len(),
            cw == cell_w(images@.take(i as int), padding as int),
            ch == cell_h(images@.take(i as int), padding as int),
        decreases images@.len() - i,
    {
        let img = &images[i];
        let tw = (img.width as u64) + 2 * (padding as u64);
        let th = (img.height as u64) + 2 * (padding as u64);
        if tw > cw {
            cw = tw;
        }
        if th > ch {
            ch = th;
        }
        proof {
            assert(images@.take(i + 1).drop_last() =~= images@.take(i as int));
            assert(images@.take(i + 1).last() == images@[i as int]);
        }
        i += 1;
    }
    proof {
        assert(images@.take(images@.len() as int) =~= images@);
    }
    (cw, ch)
}

/// `s` is the integer ceiling of the square root of `n`.
pub open spec fn is_ceil_sqrt(n: int, s: int) -> bool {
    &&& 0 <= s
    &&& s * s >= n
    &&& s == 0 || (s - 1) * (s - 1) < n
}

/// Law: the integer ceiling of a square root is unique.
pub proof fn lemma_ceil_sqrt_unique(n: int, s1: int, s2: int)
    requires
        is_ceil_sqrt(n, s1),
        is_ceil_sqrt(n, s2),
    ensures
        s1 == s2,
{
    assert(s1 == s2) by (nonlinear_arith)
        requires
            0 <= s1,
            s1 * s1 >= n,
            s1 == 0 || (s1 - 1) * (s1 - 1) < n,
            0 <= s2,
            s2 * s2 >= n,
            s2 == 0 || (s2 - 1) * (s2 - 1) < n;
}

/// The smallest `s` with `s * s >= n`.
fn ceil_sqrt(n: u64) -> (s: u64)
    requires
        n <= 0xffff_ffffu64,
    ensures
        is_ceil_sqrt(n as int, s as int),
{
    let mut s: u64 = 0;
    let mut sq: u64 = 0;
    while sq < n
        invariant
            n <= 0xffff_ffffu64,
            sq == s * s,
            s <= 0x1_0000u64,
            s == 0 || (s - 1) * (s - 1) < n,
        decreases 0x1_0001u64 - s,
    {
        proof {
            assert(s < 0x1_0000u64) by (nonlinear_arith)
                requires
                    sq == s * s,
                    sq < n,
                    n <= 0xffff_ffffu64;
        }
        let new_sq = sq + 2 * s + 1;
        let new_s = s + 1;
        proof {
            assert(new_sq == new_s * new_s) by (nonlinear_arith)
                requires
                    sq == s * s,
                    new_sq == sq + 2 * s + 1,
                    new_s == s + 1;
        }
        sq = new_sq;
        s = new_s;
    }
    s
}

/// The grid canvas derived from the sources stays within machine limits.
pub open spec fn auto_dims_fit(images: Seq<PixelBuffer>, pad: int) -> bool {
    forall|s: int| #[trigger] is_ceil_sqrt(images.len() as int, s)
        ==> s * cell_w(images, pad) <= u32::MAX
            && s * cell_h(images, pad) <= u32::MAX
            && (s * cell_w(images, pad)) * (s * cell_h(images, pad)) <= usize::MAX
}

/// What auto-size grid packing returns: a square grid of `ceil(sqrt(n))`
/// cells per axis, each cell large enough for the largest source plus its
/// margins, packed exactly as fixed-size packing of that canvas.
pub open spec fn pack_auto_post(images: Seq<PixelBuffer>, pad: int, out: PixelBuffer) -> bool {
    exists|s: int|
        #[trigger] is_ceil_sqrt(images.len() as int, s)
        && out.width == s * cell_w(images, pad)
        && out.height == s * cell_h(images, pad)
        && pack_fixed_post(images, out.width as int, out.height as int, pad, out)
}

/// Auto-size (grid) packing: the canvas is a `ceil(sqrt(n))` by
/// `ceil(sqrt(n))` grid of worst-case cells; each image is then placed by
/// the same first-fit scan with its own dimensions.
pub fn pack_images_auto_size(images: &Vec<PixelBuffer>, padding: u32) -> (out: PixelBuffer)
    requires
        all_wf(images@),
        images@.len() <= u32::MAX,
        auto_dims_fit(images@, padding as int),
    ensures
        pack_auto_post(images@, padding as int, out),
{
    let cells = max_cell_dims(images, padding);
    let s = ceil_sqrt(images.len() as u64);
    proof {
        assert(is_ceil_sqrt(images@.len() as int, s as int));
        assert((s as int) * cell_w(images@, padding as int) <= u32::MAX);
        assert((s as int) * cell_h(images@, padding as int) <= u32::MAX);
    }
    let w64 = s * cells.0;
    let h64 = s * cells.1;
    let aw = w64 as u32;
    let ah = h64 as u32;
    let out = pack_images(images, aw, ah, padding);
    proof {
        assert(is_ceil_sqrt(images@.len() as int, s as int)
            && out.width == (s as int) * cell_w(images@, padding as int)
            && out.height == (s as int) * cell_h(images@, padding as int)
            && pack_fixed_post(images@, out.width as int, out.height as int, padding as int, out));
    }
    out
}

/// The unified canvas width: one worst-case cell per image side by side,
/// plus the outer margins.
pub open spec fn unified_width(images: Seq<PixelBuffer>, pad: int) -> int {
    images.len() * cell_w(images, pad) + 2 * pad
}

/// The unified canvas height, derived the same way.
pub open spec fn unified_height(images: Seq<PixelBuffer>, pad: int) -> int {
    images.len() * cell_h(images, pad) + 2 * pad
}

/// The unified canvas derived from the sources stays within machine limits.
pub open spec fn unified_dims_fit(images: Seq<PixelBuffer>, pad: int) -> bool {
    &&& unified_width(images, pad) <= u32::MAX
    &&& unified_height(images, pad) <= u32::MAX
    &&& unified_width(images, pad) * unified_height(images, pad) <= usize::MAX
}

/// Every placement request of unified packing asks for one worst-case cell.
pub open spec fn unified_sizes(n: int, w: int, h: int) -> Seq<(int, int)> {
    Seq::new(n as nat, |i: int| (w, h))
}

/// What auto-size unified packing returns: a canvas scaled by the image
/// count on both axes, every placement requesting the worst-case cell.
pub open spec fn pack_unified_post(images: Seq<PixelBuffer>, pad: int, out: PixelBuffer) -> bool {
    &&& out.wf()
    &&& out.width == unified_width(images, pad)
    &&& out.height == unified_height(images, pad)
    &&& exists|placements: Seq<Option<Rect>>|
            #[trigger] layout_ok(unified_sizes(images.len() as int, cell_w(images, pad), cell_h(images, pad)), out.width as int, out.height as int, pad, placements)
            && buffer_matches(images, placements, out)
}

/// Auto-size (unified) packing: every image is placed as if it had the
/// worst-case cell dimensions, on a canvas scaled by the image count on
/// both axes.
pub fn pack_images_auto_size_unified(images: &Vec<PixelBuffer>, padding: u32) -> (out: PixelBuffer)
    requires
        all_wf(images@),
        images@.len() <= u32::MAX,
        unified_dims_fit(images@, padding as int),
    ensures
        pack_unified_post(images@, padding as int, out),
{
    let cells = max_cell_dims(images, padding);
    let n = images.len();
    proof {
        lemma_cell_dims_nonneg(images@, padding as int);
        if n > 0 {
            assert(cells.0 <= images@.len() * cell_w(images@, padding as int)
                && cells.1 <= images@.len() * cell_h(images@, padding as int)) by (nonlinear_arith)
                requires
                    cells.0 == cell_w(images@, padding as int),
                    cells.1 == cell_h(images@, padding as int),
                    0 <= cells.0,
                    0 <= cells.1,
                    1 <= images@.len();
        }
    }
    let w64 = (n as u64) * cells.0 + 2 * (padding as u64);
    let h64 = (n as u64) * cells.1 + 2 * (padding as u64);
    let aw = w64 as u32;
    let ah = h64 as u32;
    let cwu = cells.0 as u32;
    let chu = cells.1 as u32;
    let mut requests: Vec<(u32, u32)> = Vec::new();
    let mut i: usize = 0;
    while i < n
        invariant
            i <= n,
            n == images@.len(),
            requests@.len() == i,
            forall|j: int| 0 <= j < i ==> #[trigger] requests@[j] == (cwu, chu),
        decreases n - i,
    {
        requests.push((cwu, chu));
        i += 1;
    }
    proof {
        assert forall|q: int| 0 <= q < images@.len()
            implies images@[q].width <= (#[trigger] requests@[q]).0 && images@[q].height <= requests@[q].1 by {
            lemma_cell_dims_ge(images@, padding as int, q);
        }
    }
    let out = pack_requests(images, &requests, aw, ah, padding);
    proof {
        let sizes = unified_sizes(images@.len() as int, cell_w(images@, padding as int), cell_h(images@, padding as int));
        let p = choose|p: Seq<Option<Rect>>|
            #[trigger] layout_ok(sizes_of(requests@), aw as int, ah as int, padding as int, p)
            && buffer_matches(images@, p, out);
        assert(sizes_of(requests@) =~= sizes);
        assert(layout_ok(sizes, out.width as int, out.height as int, padding as int, p)
            && buffer_matches(images@, p, out));
    }
    out
}

/// Law (determinism): auto-size grid packing of the same ordered sources
/// with the same padding yields byte-identical output.
pub proof fn lemma_pack_auto_deterministic(images: Seq<PixelBuffer>, pad: int, out1: PixelBuffer, out2: PixelBuffer)
    requires
        pack_auto_post(images, pad, out1),
        pack_auto_post(images, pad, out2),
    ensures
        out1.width == out2.width,
        out1.height == out2.height,
        out1.pixels@ == out2.pixels@,
{
    let s1 = choose|s: int|
        #[trigger] is_ceil_sqrt(images.len() as int, s)
        && out1.width == s * cell_w(images, pad)
        && out1.height == s * cell_h(images, pad)
        && pack_fixed_post(images, out1.width as int, out1.height as int, pad, out1);
    let s2 = choose|s: int|
        #[trigger] is_ceil_sqrt(images.len() as int, s)
        && out2.width == s * cell_w(images, pad)
        && out2.height == s * cell_h(images, pad)
        && pack_fixed_post(images, out2.width as int, out2.height as int, pad, out2);
    lemma_ceil_sqrt_unique(images.len() as int, s1, s2);
    lemma_pack_fixed_deterministic(images, out1.width as int, out1.height as int, pad, out1, out2);
}

/// Law (determinism): auto-size unified packing of the same ordered sources
/// with the same padding yields byte-identical output.
pub proof fn lemma_pack_unified_deterministic(images: Seq<PixelBuffer>, pad: int, out1: PixelBuffer, out2: PixelBuffer)
    requires
        pack_unified_post(images, pad, out1),
        pack_unified_post(images, pad, out2),
    ensures
        out1.width == out2.width,
        out1.height == out2.height,
        out1.pixels@ == out2.pixels@,
{
    let sizes = unified_sizes(images.len() as int, cell_w(images, pad), cell_h(images, pad));
    let p1 = choose|p: Seq<Option<Rect>>|
        #[trigger] layout_ok(sizes, out1.width as int, out1.height as int, pad, p)
        && buffer_matches(images, p, out1);
    let p2 = choose|p: Seq<Option<Rect>>|
        #[trigger] layout_ok(sizes, out2.width as int, out2.height as int, pad, p)
        && buffer_matches(images, p, out2);
    lemma_layout_deterministic(sizes, out1.width as int, out1.height as int, pad, p1, p2);
    assert forall|k: int| 0 <= k < out1.pixels@.len() implies out1.pixels@[k] == out2.pixels@[k] by {
        lemma_pix_index_decompose(out1.width as int, out1.height as int, k);
        let x = k % (out1.width as int);
        let y = k / (out1.width as int);
        assert(out1.pixel_at(x, y) == composite_pixel(images, p1, x, y));
        assert(out2.pixel_at(x, y) == composite_pixel(images, p2, x, y));
    }
    assert(out1.pixels@ =~= out2.pixels@);
}

} // verus!

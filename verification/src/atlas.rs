//! The rectangle allocator: a fixed-size canvas on which rectangles are
//! placed one by one, first fit in row-major scan order, each kept a
//! configurable padding margin away from every other rectangle and from the
//! canvas edges.

use vstd::prelude::*;

verus! {

/// A rectangle placed on an atlas canvas: `(x, y)` is its top-left corner in
/// canvas coordinates, `width` and `height` its size in pixels.
#[derive(Clone, Copy, Debug, PartialEq, Eq, Structural)]
pub struct Rect {
    pub x: u32,
    pub y: u32,
    pub width: u32,
    pub height: u32,
}

/// A fixed-size canvas together with every rectangle placed on it so far, in
/// placement order.
pub struct Atlas {
    pub width: u32,
    pub height: u32,
    pub rects: Vec<Rect>,
}

/// The collision test: a candidate rectangle at `(x, y)` of size `(w, h)`
/// overlaps the placed rectangle `r` once both right and bottom margins are
/// expanded by `pad`.
pub open spec fn collides(x: int, y: int, w: int, h: int, pad: int, r: Rect) -> bool {
    &&& x + w + pad > r.x
    &&& x < r.x + r.width + pad
    &&& y + h + pad > r.y
    &&& y < r.y + r.height + pad
}

/// The collision test applied to two placed rectangles.
pub open spec fn rect_collides(a: Rect, pad: int, b: Rect) -> bool {
    collides(a.x as int, a.y as int, a.width as int, a.height as int, pad, b)
}

/// No already placed rectangle collides with a candidate at `(x, y)`.
pub open spec fn spot_free(rects: Seq<Rect>, x: int, y: int, w: int, h: int, pad: int) -> bool {
    forall|i: int| 0 <= i < rects.len() ==> !collides(x, y, w, h, pad, #[trigger] rects[i])
}

/// The candidate keeps `pad` pixels from every canvas edge.
pub open spec fn spot_in_bounds(aw: int, ah: int, x: int, y: int, w: int, h: int, pad: int) -> bool {
    &&& pad <= x
    &&& pad <= y
    &&& x + w + pad <= aw
    &&& y + h + pad <= ah
}

/// A candidate position is acceptable: inside the canvas margins and free of
/// every already placed rectangle.
pub open spec fn spot_ok(rects: Seq<Rect>, aw: int, ah: int, x: int, y: int, w: int, h: int, pad: int) -> bool {
    spot_in_bounds(aw, ah, x, y, w, h, pad) && spot_free(rects, x, y, w, h, pad)
}

/// `(x1, y1)` comes strictly before `(x2, y2)` in the row-major scan.
pub open spec fn scan_before(x1: int, y1: int, x2: int, y2: int) -> bool {
    y1 < y2 || (y1 == y2 && x1 < x2)
}

/// `r` is the first-fit placement for a `(w, h)` request: acceptable, and no
/// acceptable position comes before it in the scan.
pub open spec fn placed_rect_ok(rects: Seq<Rect>, aw: int, ah: int, w: int, h: int, pad: int, r: Rect) -> bool {
    &&& r.width == w
    &&& r.height == h
    &&& spot_ok(rects, aw, ah, r.x as int, r.y as int, w, h, pad)
    &&& forall|x: int, y: int| #[trigger] spot_ok(rects, aw, ah, x, y, w, h, pad)
            ==> !scan_before(x, y, r.x as int, r.y as int)
}

/// What one placement attempt returns: the first-fit rectangle, or nothing
/// when no acceptable position exists.
pub open spec fn placement_ok(rects: Seq<Rect>, aw: int, ah: int, w: int, h: int, pad: int, r: Option<Rect>) -> bool {
    match r {
        Some(rect) => placed_rect_ok(rects, aw, ah, w, h, pad, rect),
        None => forall|x: int, y: int| !(#[trigger] spot_ok(rects, aw, ah, x, y, w, h, pad)),
    }
}

/// No two distinct placed rectangles collide under margin `pad`.
pub open spec fn rects_separated(rects: Seq<Rect>, pad: int) -> bool {
    forall|i: int, j: int| 0 <= i < rects.len() && 0 <= j < rects.len() && i != j
        ==> !(#[trigger] rect_collides(rects[i], pad, rects[j]))
}

/// One placed rectangle keeps `pad` pixels from every canvas edge.
pub open spec fn rect_in_bounds(r: Rect, aw: int, ah: int, pad: int) -> bool {
    spot_in_bounds(aw, ah, r.x as int, r.y as int, r.width as int, r.height as int, pad)
}

/// Every placed rectangle keeps `pad` pixels from every canvas edge.
pub open spec fn rects_in_bounds(rects: Seq<Rect>, aw: int, ah: int, pad: int) -> bool {
    forall|i: int| 0 <= i < rects.len() ==> rect_in_bounds(#[trigger] rects[i], aw, ah, pad)
}

/// The scan has ruled out every acceptable position strictly before `(x, y)`.
pub open spec fn scanned_up_to(rects: Seq<Rect>, aw: int, ah: int, w: int, h: int, pad: int, x: int, y: int) -> bool {
    forall|x2: int, y2: int| #[trigger] spot_ok(rects, aw, ah, x2, y2, w, h, pad)
        ==> !scan_before(x2, y2, x, y)
}

impl Atlas {
    /// An empty canvas of the given dimensions.
    pub fn new(width: u32, height: u32) -> (atlas: Atlas)
        ensures
            atlas.width == width,
            atlas.height == height,
            atlas.rects@ == Seq::<Rect>::empty(),
    {
        let atlas = Atlas { width, height, rects: Vec::new() };
        proof {
            assert(atlas.rects@ =~= Seq::<Rect>::empty());
        }
        atlas
    }

    /// Does a `(width, height)` candidate at `(x, y)` avoid every already
    /// placed rectangle, under margin `padding`?
    fn is_free_space(&self, x: u32, y: u32, width: u32, height: u32, padding: u32) -> (free: bool)
        ensures
            free == spot_free(self.rects@, x as int, y as int, width as int, height as int, padding as int),
    {
        let n = self.rects.len();
        let mut i: usize = 0;
        while i < n
            invariant
                i <= n,
                n == self.rects@.len(),
                forall|j: int| 0 <= j < i
                    ==> !collides(x as int, y as int, width as int, height as int, padding as int, #[trigger] self.rects@[j]),
            decreases n - i,
        {
            let rect = self.rects[i];
            if (x as u64) + (width as u64) + (padding as u64) > rect.x as u64
                && (x as u64) < (rect.x as u64) + (rect.width as u64) + (padding as u64)
                && (y as u64) + (height as u64) + (padding as u64) > rect.y as u64
                && (y as u64) < (rect.y as u64) + (rect.height as u64) + (padding as u64)
            {
                proof {
                    assert(collides(x as int, y as int, width as int, height as int, padding as int, self.rects@[i as int]));
                }
                return false;
            }
            i += 1;
        }
        true
    }

    /// Row-major scan for the first acceptable position for a
    /// `(width, height)` request under margin `padding`.
    #[verifier::loop_isolation(false)]
    fn find_spot(&self, width: u32, height: u32, padding: u32) -> (r: Option<(u32, u32)>)
        ensures
            match r {
                Some(pos) => {
                    &&& spot_ok(self.rects@, self.width as int, self.height as int, pos.0 as int, pos.1 as int, width as int, height as int, padding as int)
                    &&& scanned_up_to(self.rects@, self.width as int, self.height as int, width as int, height as int, padding as int, pos.0 as int, pos.1 as int)
                },
                None => forall|x: int, y: int| !(#[trigger] spot_ok(self.rects@, self.width as int, self.height as int, x, y, width as int, height as int, padding as int)),
            },
    {
        let aw = self.width as u64;
        let ah = self.height as u64;
        let w = width as u64;
        let h = height as u64;
        let pad = padding as u64;
        let mut y: u64 = pad;
        while y + h + pad <= ah
            invariant
                pad <= y,
                y <= 0x1_0000_0000u64,
                scanned_up_to(self.rects@, aw as int, ah as int, w as int, h as int, pad as int, pad as int, y as int),
            decreases ah + 1 - y,
        {
            let mut x: u64 = pad;
            while x + w + pad <= aw
                invariant
                    pad <= x,
                    x <= 0x1_0000_0000u64,
                    scanned_up_to(self.rects@, aw as int, ah as int, w as int, h as int, pad as int, x as int, y as int),
                decreases aw + 1 - x,
            {
                if self.is_free_space(x as u32, y as u32, width, height, padding) {
                    return Some((x as u32, y as u32));
                }
                proof {
                    assert forall|x2: int, y2: int| spot_ok(self.rects@, aw as int, ah as int, x2, y2, w as int, h as int, pad as int)
                        implies !scan_before(x2, y2, x as int + 1, y as int) by {
                        assert(!scan_before(x2, y2, x as int, y as int));
                        if scan_before(x2, y2, x as int + 1, y as int) {
                            assert(x2 == x as int && y2 == y as int);
                            assert(!spot_free(self.rects@, x as int, y as int, w as int, h as int, pad as int));
                            assert(false);
                        }
                    }
                }
                x += 1;
            }
            proof {
                assert forall|x2: int, y2: int| spot_ok(self.rects@, aw as int, ah as int, x2, y2, w as int, h as int, pad as int)
                    implies !scan_before(x2, y2, pad as int, y as int + 1) by {
                    assert(!scan_before(x2, y2, x as int, y as int));
                    if scan_before(x2, y2, pad as int, y as int + 1) {
                        assert(pad <= x2);
                        assert(y2 == y as int && x2 >= x as int);
                        assert(x2 + w + pad <= aw);
                        assert(false);
                    }
                }
            }
            y += 1;
        }
        proof {
            assert forall|x2: int, y2: int| !(#[trigger] spot_ok(self.rects@, aw as int, ah as int, x2, y2, w as int, h as int, pad as int)) by {
                if spot_ok(self.rects@, aw as int, ah as int, x2, y2, w as int, h as int, pad as int) {
                    assert(y2 + h + pad <= ah);
                    assert(y2 < y as int);
                    assert(scan_before(x2, y2, pad as int, y as int));
                }
            }
        }
        None
    }

    /// First-fit placement: the lowest-`y`, then lowest-`x` position where a
    /// `(width, height)` rectangle fits under margin `padding`. On success
    /// the rectangle is appended to `rects` and returned; on failure the
    /// atlas is left unchanged.
    pub fn add_rect(&mut self, width: u32, height: u32, padding: u32) -> (r: Option<Rect>)
        ensures
            final(self).width == old(self).width,
            final(self).height == old(self).height,
            placement_ok(old(self).rects@, old(self).width as int, old(self).height as int, width as int, height as int, padding as int, r),
            match r {
                Some(rect) => final(self).rects@ == old(self).rects@.push(rect),
                None => final(self).rects@ == old(self).rects@,
            },
    {
        match self.find_spot(width, height, padding) {
            Some(pos) => {
                let rect = Rect { x: pos.0, y: pos.1, width, height };
                self.rects.push(rect);
                Some(rect)
            }
            None => None,
        }
    }
}

/// Law: the padding-expanded collision test is symmetric, so the one-sided
/// margin expansion still keeps any two placed rectangles apart.
pub proof fn lemma_collides_symmetric(a: Rect, pad: int, b: Rect)
    ensures
        rect_collides(a, pad, b) == rect_collides(b, pad, a),
{
}

/// Law (determinism): the first-fit contract pins the placement down, so any
/// two results of the same request against the same atlas state are equal.
pub proof fn lemma_placement_deterministic(rects: Seq<Rect>, aw: int, ah: int, w: int, h: int, pad: int, r1: Option<Rect>, r2: Option<Rect>)
    requires
        placement_ok(rects, aw, ah, w, h, pad, r1),
        placement_ok(rects, aw, ah, w, h, pad, r2),
    ensures
        r1 == r2,
{
    match (r1, r2) {
        (Some(a), Some(b)) => {
            assert(spot_ok(rects, aw, ah, a.x as int, a.y as int, w, h, pad));
            assert(spot_ok(rects, aw, ah, b.x as int, b.y as int, w, h, pad));
            assert(!scan_before(a.x as int, a.y as int, b.x as int, b.y as int));
            assert(!scan_before(b.x as int, b.y as int, a.x as int, a.y as int));
            assert(a == b);
        }
        (Some(a), None) => {
            assert(spot_ok(rects, aw, ah, a.x as int, a.y as int, w, h, pad));
        }
        (None, Some(b)) => {
            assert(spot_ok(rects, aw, ah, b.x as int, b.y as int, w, h, pad));
        }
        (None, None) => {}
    }
}

/// Law: a successful placement collides with nothing already placed, so the
/// pairwise separation of the whole rectangle list is preserved.
pub proof fn lemma_placement_keeps_separation(rects: Seq<Rect>, aw: int, ah: int, w: int, h: int, pad: int, rect: Rect)
    requires
        placed_rect_ok(rects, aw, ah, w, h, pad, rect),
        rects_separated(rects, pad),
    ensures
        rects_separated(rects.push(rect), pad),
{
    let all = rects.push(rect);
    assert forall|i: int, j: int| 0 <= i < all.len() && 0 <= j < all.len() && i != j
        implies !(#[trigger] rect_collides(all[i], pad, all[j])) by {
        if i < rects.len() && j < rects.len() {
            assert(all[i] == rects[i]);
            assert(all[j] == rects[j]);
            assert(!rect_collides(rects[i], pad, rects[j]));
        } else if j == rects.len() {
            assert(all[i] == rects[i]);
            assert(all[j] == rect);
            assert(!collides(rect.x as int, rect.y as int, w, h, pad, rects[i]));
            assert(!rect_collides(rect, pad, rects[i]));
            lemma_collides_symmetric(rects[i], pad, rect);
        } else {
            assert(all[i] == rect);
            assert(all[j] == rects[j]);
            assert(!collides(rect.x as int, rect.y as int, w, h, pad, rects[j]));
            assert(!rect_collides(rect, pad, rects[j]));
        }
    }
}

/// Law: when the request plus both margins exceeds the canvas on either
/// axis, no position is acceptable, so `add_rect` must return nothing.
pub proof fn lemma_canvas_too_small(rects: Seq<Rect>, aw: int, ah: int, w: int, h: int, pad: int, x: int, y: int)
    requires
        w + 2 * pad > aw || h + 2 * pad > ah,
    ensures
        !spot_ok(rects, aw, ah, x, y, w, h, pad),
{
}

} // verus!

//! CPU-side texture: RGBA8 pixels, a version that bumps on every change, and an optional
//! dirty rectangle for partial GPU upload.
use vstd::prelude::*;

verus! {

/// A texture. `dirty` is `(x, y, w, h)`; `None` means upload the whole texture. When
/// `gpu_resident` is set the GPU copy is the source of truth and `rgba` may stay empty.
pub struct Texture {
    /// Catalog key material recipes refer to the texture by; empty when unnamed.
    pub id: String,
    pub width: u32,
    pub height: u32,
    pub rgba: Vec<u8>,
    pub version: u64,
    pub srgb: bool,
    pub dirty: Option<(u32, u32, u32, u32)>,
    pub gpu_resident: bool,
}

pub open spec fn at_least_one(x: u32) -> int {
    if x == 0 {
        1
    } else {
        x as int
    }
}

/// The region marked dirty by `mark_changed_rect`: the requested rectangle clipped to
/// the texture, joined with the rectangle already dirty; `None` when the clipped
/// rectangle is empty.
pub open spec fn dirty_after(
    old_dirty: Option<(u32, u32, u32, u32)>,
    width: u32,
    height: u32,
    x: u32,
    y: u32,
    w: u32,
    h: u32,
) -> Option<(u32, u32, u32, u32)> {
    let x1 = if x + w < width { x + w } else { width as int };
    let y1 = if y + h < height { y + h } else { height as int };
    let x0 = if x < width { x as int } else { width as int };
    let y0 = if y < height { y as int } else { height as int };
    if x1 <= x0 || y1 <= y0 {
        None
    } else {
        match old_dirty {
            Some((ox, oy, ow, oh)) => {
                let nx0 = if ox < x0 { ox as int } else { x0 };
                let ny0 = if oy < y0 { oy as int } else { y0 };
                let nx1 = if ox + ow > x1 { ox + ow } else { x1 };
                let ny1 = if oy + oh > y1 { oy + oh } else { y1 };
                Some((nx0 as u32, ny0 as u32, (nx1 - nx0) as u32, (ny1 - ny0) as u32))
            },
            None => Some((x0 as u32, y0 as u32, (x1 - x0) as u32, (y1 - y0) as u32)),
        }
    }
}

/// A rectangle whose far edges fit in `u32`.
pub open spec fn rect_fits(r: Option<(u32, u32, u32, u32)>) -> bool {
    match r {
        Some((x, y, w, h)) => x + w <= u32::MAX && y + h <= u32::MAX,
        None => true,
    }
}

/// The rectangle `(x, y, w, h)` clipped to a `width` × `height` texture is empty.
pub open spec fn rect_empty(width: u32, height: u32, x: u32, y: u32, w: u32, h: u32) -> bool {
    let x1 = if x + w < width { x + w } else { width as int };
    let y1 = if y + h < height { y + h } else { height as int };
    let x0 = if x < width { x as int } else { width as int };
    let y0 = if y < height { y as int } else { height as int };
    x1 <= x0 || y1 <= y0
}

impl Texture {
    /// A 1×1 sRGB texture of one color.
    pub fn solid(r: u8, g: u8, b: u8, a: u8) -> (t: Texture)
        ensures
            t.id@.len() == 0,
            t.width == 1 && t.height == 1,
            t.rgba@ == seq![r, g, b, a],
            t.version == 1,
            t.srgb,
            t.dirty is None,
            !t.gpu_resident,
    {
        Texture {
            id: String::new(),
            width: 1,
            height: 1,
            rgba: vec![r, g, b, a],
            version: 1,
            srgb: true,
            dirty: None,
            gpu_resident: false,
        }
    }

    /// A 1×1 linear (non-sRGB) texture of one color.
    pub fn solid_linear(r: u8, g: u8, b: u8, a: u8) -> (t: Texture)
        ensures
            t.id@.len() == 0,
            t.width == 1 && t.height == 1,
            t.rgba@ == seq![r, g, b, a],
            t.version == 1,
            !t.srgb,
            t.dirty is None,
            !t.gpu_resident,
    {
        let mut t = Texture::solid(r, g, b, a);
        t.srgb = false;
        t
    }

    /// A GPU-backed texture with no CPU pixels; zero sizes become 1.
    pub fn gpu_resident(width: u32, height: u32, srgb: bool) -> (t: Texture)
        ensures
            t.id@.len() == 0,
            t.width == at_least_one(width),
            t.height == at_least_one(height),
            t.rgba@.len() == 0,
            t.version == 1,
            t.srgb == srgb,
            t.dirty is None,
            t.gpu_resident,
    {
        let w = if width == 0 {
            1
        } else {
            width
        };
        let h = if height == 0 {
            1
        } else {
            height
        };
        Texture {
            id: String::new(),
            width: w,
            height: h,
            rgba: Vec::new(),
            version: 1,
            srgb,
            dirty: None,
            gpu_resident: true,
        }
    }

    /// A square baked map of side `res` holding `rgba`, under catalog id `id`.
    pub fn baked(id: String, res: u32, rgba: Vec<u8>, srgb: bool) -> (t: Texture)
        ensures
            t.id@ == id@,
            t.width == res && t.height == res,
            t.rgba@ == rgba@,
            t.version == 1,
            t.srgb == srgb,
            t.dirty is None,
            !t.gpu_resident,
    {
        Texture { id, width: res, height: res, rgba, version: 1, srgb, dirty: None, gpu_resident: false }
    }

    /// Gives the texture a CPU mirror of `width * height * 4` bytes; pixels already there
    /// are kept, new ones are zero.
    pub fn ensure_rgba(&mut self)
        requires
            old(self).width * old(self).height * 4 <= u32::MAX,
        ensures
            final(self).rgba@.len() == old(self).width * old(self).height * 4,
            forall|i: int|
                0 <= i < final(self).rgba@.len() ==> #[trigger] final(self).rgba@[i] == (if i
                    < old(self).rgba@.len() {
                    old(self).rgba@[i]
                } else {
                    0u8
                }),
            final(self).id@ == old(self).id@,
            final(self).width == old(self).width,
            final(self).height == old(self).height,
            final(self).version == old(self).version,
            final(self).srgb == old(self).srgb,
            final(self).dirty == old(self).dirty,
            final(self).gpu_resident == old(self).gpu_resident,
    {
        let w: u32 = self.width;
        let h: u32 = self.height;
        assert(w * h <= w * h * 4) by (nonlinear_arith)
            requires
                w * h >= 0,
        ;
        let n = (w * h * 4) as usize;
        if self.rgba.len() != n {
            let ghost before = self.rgba@;
            self.rgba.resize(n, 0u8);
            assert forall|i: int| 0 <= i < self.rgba@.len() implies #[trigger] self.rgba@[i] == (
            if i < before.len() {
                before[i]
            } else {
                0u8
            }) by {
                if i < before.len() {
                    if n > before.len() {
                        assert(self.rgba@.subrange(0, before.len() as int)[i] == self.rgba@[i]);
                    }
                }
            }
        }
    }

    /// Records a change to the whole texture.
    pub fn mark_changed(&mut self)
        requires
            old(self).version < u64::MAX,
        ensures
            final(self).version == old(self).version + 1,
            final(self).dirty is None,
            final(self).id@ == old(self).id@,
            final(self).width == old(self).width,
            final(self).height == old(self).height,
            final(self).rgba@ == old(self).rgba@,
            final(self).srgb == old(self).srgb,
            final(self).gpu_resident == old(self).gpu_resident,
    {
        self.version = self.version + 1;
        self.dirty = None;
    }

    /// Records a change inside `(x, y, w, h)`: the version bumps and the rectangle,
    /// clipped to the texture, joins the dirty region. A GPU-resident texture keeps no
    /// dirty region.
    pub fn mark_changed_rect(&mut self, x: u32, y: u32, w: u32, h: u32)
        requires
            old(self).version < u64::MAX,
            x + w <= u32::MAX,
            y + h <= u32::MAX,
            old(self).gpu_resident || rect_empty(old(self).width, old(self).height, x, y, w, h)
                || rect_fits(old(self).dirty),
        ensures
            final(self).version == old(self).version + 1,
            final(self).dirty == (if old(self).gpu_resident {
                None
            } else {
                dirty_after(old(self).dirty, old(self).width, old(self).height, x, y, w, h)
            }),
            final(self).id@ == old(self).id@,
            final(self).width == old(self).width,
            final(self).height == old(self).height,
            final(self).rgba@ == old(self).rgba@,
            final(self).srgb == old(self).srgb,
            final(self).gpu_resident == old(self).gpu_resident,
    {
        self.version = self.version + 1;
        if self.gpu_resident {
            self.dirty = None;
            return;
        }
        let x1 = if x + w < self.width {
            x + w
        } else {
            self.width
        };
        let y1 = if y + h < self.height {
            y + h
        } else {
            self.height
        };
        let x0 = if x < self.width {
            x
        } else {
            self.width
        };
        let y0 = if y < self.height {
            y
        } else {
            self.height
        };
        if x1 <= x0 || y1 <= y0 {
            self.dirty = None;
            return;
        }
        let next = match self.dirty {
            Some((ox, oy, ow, oh)) => {
                let nx0 = if ox < x0 {
                    ox
                } else {
                    x0
                };
                let ny0 = if oy < y0 {
                    oy
                } else {
                    y0
                };
                let nx1 = if ox + ow > x1 {
                    ox + ow
                } else {
                    x1
                };
                let ny1 = if oy + oh > y1 {
                    oy + oh
                } else {
                    y1
                };
                (nx0, ny0, nx1 - nx0, ny1 - ny0)
            },
            None => (x0, y0, x1 - x0, y1 - y0),
        };
        self.dirty = Some(next);
    }
}

/// `outer` covers `inner`.
pub open spec fn covers(outer: (u32, u32, u32, u32), inner: (int, int, int, int)) -> bool {
    outer.0 <= inner.0 && outer.1 <= inner.1 && inner.0 + inner.2 <= outer.0 + outer.2
        && inner.1 + inner.3 <= outer.1 + outer.3
}

/// The dirty region after a mark covers the marked rectangle clipped to the texture, and
/// the region that was dirty before; it stays inside the texture when that one was, and
/// its far edges still fit in `u32`.
pub proof fn law_dirty_region_covers(
    old_dirty: Option<(u32, u32, u32, u32)>,
    width: u32,
    height: u32,
    x: u32,
    y: u32,
    w: u32,
    h: u32,
)
    requires
        x + w <= u32::MAX,
        y + h <= u32::MAX,
        rect_fits(old_dirty),
    ensures
        ({
            let x1 = if x + w < width { x + w } else { width as int };
            let y1 = if y + h < height { y + h } else { height as int };
            let x0 = if x < width { x as int } else { width as int };
            let y0 = if y < height { y as int } else { height as int };
            let r = dirty_after(old_dirty, width, height, x, y, w, h);
            &&& r is None <==> (x1 <= x0 || y1 <= y0)
            &&& r matches Some(d) ==> covers(d, (x0, y0, x1 - x0, y1 - y0))
            &&& r matches Some(d) ==> (old_dirty matches Some(o) ==> covers(
                d,
                (o.0 as int, o.1 as int, o.2 as int, o.3 as int),
            ))
            &&& r matches Some(d) ==> (old_dirty matches Some(o) && o.0 + o.2 <= width && o.1
                + o.3 <= height ==> d.0 + d.2 <= width && d.1 + d.3 <= height)
            &&& r matches Some(d) ==> (old_dirty is None ==> d.0 + d.2 <= width && d.1 + d.3
                <= height)
            &&& rect_fits(r)
        }),
{
}

} // verus!

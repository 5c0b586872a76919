//! The pixel buffer: a row-major grid of opaque colors, with bounds-checked
//! access and the one blending write that every shape goes through.
use vstd::prelude::*;
use crate::color::{
    RGB, RGBA, composite, lemma_opaque_paint_replaces, lemma_transparent_paint_keeps, opaque_part,
};

verus! {

/// What a canvas holds: its size and its cells in row-major order.
pub struct CanvasView {
    pub width: nat,
    pub height: nat,
    pub pixels: Seq<RGB>,
}

impl CanvasView {
    /// The buffer holds exactly one cell per pixel.
    pub open spec fn wf(self) -> bool {
        self.pixels.len() == self.width * self.height
    }

    pub open spec fn inside(self, x: int, y: int) -> bool {
        0 <= x < self.width && 0 <= y < self.height
    }

    /// Where pixel `(x, y)` sits in the buffer.
    pub open spec fn index(self, x: int, y: int) -> int {
        y * self.width + x
    }

    pub open spec fn pixel(self, x: int, y: int) -> RGB {
        self.pixels[self.index(x, y)]
    }

    /// The canvas with pixel `(x, y)` replaced by `c`.
    pub open spec fn set(self, x: int, y: int, c: RGB) -> CanvasView {
        CanvasView { pixels: self.pixels.update(self.index(x, y), c), ..self }
    }

    /// The canvas after compositing `c` over pixel `(x, y)`; unchanged when
    /// the pixel lies outside.
    pub open spec fn paint(self, x: int, y: int, c: RGBA) -> CanvasView {
        if self.inside(x, y) {
            self.set(x, y, composite(self.pixel(x, y), c))
        } else {
            self
        }
    }

    /// The canvas after painting `c` at each point of `pts`, in order.
    pub open spec fn paint_all(self, pts: Seq<(int, int)>, c: RGBA) -> CanvasView
        decreases pts.len(),
    {
        if pts.len() == 0 {
            self
        } else {
            self.paint_all(pts.drop_last(), c).paint(pts.last().0, pts.last().1, c)
        }
    }
}

/// The word handed to a display for one pixel: `0x00RRGGBB`.
pub open spec fn packed(c: RGB) -> u32 {
    (c.r as u32) << 16u32 | (c.g as u32) << 8u32 | (c.b as u32)
}

/// The packed word of a color, as a number: red in bits 16 to 23, green in
/// bits 8 to 15, blue in bits 0 to 7, the top byte zero.
pub proof fn lemma_packed_value(c: RGB)
    ensures
        packed(c) == c.r as u32 * 65536 + c.g as u32 * 256 + c.b as u32,
        packed(c) < 0x100_0000,
{
    let (r, g, b) = (c.r as u32, c.g as u32, c.b as u32);
    assert(r << 16u32 | g << 8u32 | b == r * 65536 + g * 256 + b && r * 65536 + g * 256 + b
        < 0x100_0000) by (bit_vector)
        requires
            r < 256,
            g < 256,
            b < 256,
    ;
}

/// A shape that can paint itself onto a canvas.
pub trait Draw {
    fn draw(&self, canvas: &mut Canvas)
        requires
            old(canvas).wf(),
        ensures
            final(canvas).wf(),
            final(canvas)@.width == old(canvas)@.width,
            final(canvas)@.height == old(canvas)@.height,
    ;
}

/// A width by height grid of opaque pixels, origin at the top left.
#[derive(Debug, Clone)]
pub struct Canvas {
    width: usize,
    height: usize,
    buffer: Vec<RGB>,
}

impl View for Canvas {
    type V = CanvasView;

    closed spec fn view(&self) -> CanvasView {
        CanvasView { width: self.width as nat, height: self.height as nat, pixels: self.buffer@ }
    }
}

/// A pixel on the canvas has its cell within the buffer.
pub proof fn lemma_index_in_bounds(v: CanvasView, x: int, y: int)
    requires
        v.wf(),
        v.inside(x, y),
    ensures
        0 <= v.index(x, y) < v.pixels.len(),
{
    let w = v.width as int;
    let h = v.height as int;
    assert(0 <= y * w + x < w * h) by (nonlinear_arith)
        requires
            0 <= x < w,
            0 <= y < h,
    ;
}

/// Reading a pixel just written gives what was written, and the buffer
/// keeps its size.
pub proof fn lemma_set_then_get(v: CanvasView, x: int, y: int, c: RGB)
    requires
        v.wf(),
        v.inside(x, y),
    ensures
        v.set(x, y, c).wf(),
        v.set(x, y, c).pixel(x, y) == c,
{
    lemma_index_in_bounds(v, x, y);
}

/// Painting an opaque color over a pixel of the canvas leaves exactly the
/// paint's color there, whatever it held before.
pub proof fn lemma_opaque_pixel_replaces(v: CanvasView, x: int, y: int, c: RGBA)
    requires
        v.wf(),
        v.inside(x, y),
        c.a == 255,
    ensures
        v.paint(x, y, c).pixel(x, y) == opaque_part(c),
{
    lemma_opaque_paint_replaces(v.pixel(x, y), c);
    lemma_set_then_get(v, x, y, composite(v.pixel(x, y), c));
}

/// Painting a fully transparent color anywhere leaves the canvas as it was.
pub proof fn lemma_transparent_pixel_keeps(v: CanvasView, x: int, y: int, c: RGBA)
    requires
        v.wf(),
        c.a == 0,
    ensures
        v.paint(x, y, c) == v,
{
    if v.inside(x, y) {
        lemma_transparent_paint_keeps(v.pixel(x, y), c);
        lemma_index_in_bounds(v, x, y);
        assert(v.pixels.update(v.index(x, y), v.pixel(x, y)) =~= v.pixels);
    }
}

/// Painting a sequence and then another is painting the two joined.
pub proof fn lemma_paint_all_append(v: CanvasView, a: Seq<(int, int)>, b: Seq<(int, int)>, c: RGBA)
    ensures
        v.paint_all(a + b, c) == v.paint_all(a, c).paint_all(b, c),
    decreases b.len(),
{
    if b.len() == 0 {
        assert(a + b =~= a);
    } else {
        lemma_paint_all_append(v, a, b.drop_last(), c);
        assert((a + b).drop_last() =~= a + b.drop_last());
    }
}

/// The points of a vector of machine coordinates, as integers.
pub open spec fn int_points(pts: Seq<(isize, isize)>) -> Seq<(int, int)> {
    pts.map_values(|p: (isize, isize)| (p.0 as int, p.1 as int))
}

impl Canvas {
    /// The canvas keeps one cell per pixel.
    pub open spec fn wf(&self) -> bool {
        self@.wf()
    }

    /// A `width` by `height` canvas, every pixel black.
    pub fn new(width: usize, height: usize) -> (c: Self)
        requires
            width * height <= usize::MAX,
        ensures
            c.wf(),
            c@.width == width,
            c@.height == height,
            c@.pixels == Seq::new((width * height) as nat, |i: int| RGB { r: 0, g: 0, b: 0 }),
    {
        let buffer = vec![RGB { r: 0, g: 0, b: 0 }; width * height];
        let c = Canvas { width, height, buffer };
        assert(c@.pixels =~= Seq::new((width * height) as nat, |i: int| RGB { r: 0, g: 0, b: 0 }));
        c
    }

    pub fn width(&self) -> (r: usize)
        ensures
            r == self@.width,
    {
        self.width
    }

    pub fn height(&self) -> (r: usize)
        ensures
            r == self@.height,
    {
        self.height
    }

    /// The cells, row by row.
    pub fn buffer(&self) -> (r: &Vec<RGB>)
        ensures
            r@ == self@.pixels,
    {
        &self.buffer
    }

    /// The cells, for writing in place. The canvas afterwards holds whatever
    /// the caller left in the vector.
    pub fn buffer_mut(&mut self) -> (r: &mut Vec<RGB>)
        ensures
            r@ == old(self)@.pixels,
            final(self)@ == (CanvasView { pixels: final(r)@, ..old(self)@ }),
    {
        &mut self.buffer
    }

    /// Each cell as a `0x00RRGGBB` word, in buffer order.
    pub fn buffer_u32(&self) -> (r: Vec<u32>)
        ensures
            r@ == self@.pixels.map_values(|c: RGB| packed(c)),
    {
        let mut r: Vec<u32> = Vec::with_capacity(self.buffer.len());
        let mut i: usize = 0;
        while i < self.buffer.len()
            invariant
                i <= self.buffer@.len(),
                r@ =~= self.buffer@.take(i as int).map_values(|c: RGB| packed(c)),
            decreases self.buffer@.len() - i,
        {
            let c = self.buffer[i];
            r.push((c.r as u32) << 16u32 | (c.g as u32) << 8u32 | (c.b as u32));
            assert(self.buffer@.take(i + 1) =~= self.buffer@.take(i as int).push(c));
            i += 1;
        }
        assert(self.buffer@.take(i as int) =~= self.buffer@);
        r
    }

    /// Whether `(x, y)` lies on the canvas.
    pub fn pixel_inside(&self, x: isize, y: isize) -> (r: bool)
        ensures
            r == self@.inside(x as int, y as int),
    {
        x >= 0 && (x as usize) < self.width && y >= 0 && (y as usize) < self.height
    }

    /// The color at `(x, y)`, or `None` when the pixel lies outside.
    pub fn get(&self, x: usize, y: usize) -> (r: Option<&RGB>)
        requires
            self.wf(),
        ensures
            r.is_some() == self@.inside(x as int, y as int),
            r.is_some() ==> *r.unwrap() == self@.pixel(x as int, y as int),
    {
        let n = self.buffer.len();
        if x < self.width && y < self.height {
            proof {
                lemma_index_in_bounds(self@, x as int, y as int);
                assert(y * self.width + x < n);
            }
            Some(&self.buffer[y * self.width + x])
        } else {
            None
        }
    }

    /// Writes `color` at `(x, y)`; `None`, and no change, when the pixel
    /// lies outside.
    pub fn set(&mut self, x: usize, y: usize, color: RGB) -> (r: Option<()>)
        requires
            old(self).wf(),
        ensures
            final(self).wf(),
            r.is_some() == old(self)@.inside(x as int, y as int),
            final(self)@ == if r.is_some() {
                old(self)@.set(x as int, y as int, color)
            } else {
                old(self)@
            },
    {
        let n = self.buffer.len();
        if x < self.width && y < self.height {
            proof {
                lemma_index_in_bounds(self@, x as int, y as int);
                assert(y * self.width + x < n);
            }
            let i = y * self.width + x;
            self.buffer.set(i, color);
            Some(())
        } else {
            None
        }
    }

    /// Overwrites every pixel with `color`.
    pub fn fill(&mut self, color: RGB)
        requires
            old(self).wf(),
        ensures
            final(self).wf(),
            final(self)@ == (CanvasView {
                pixels: Seq::new(old(self)@.pixels.len(), |i: int| color),
                ..old(self)@
            }),
    {
        let n = self.buffer.len();
        self.buffer = vec![color; n];
        assert(self.buffer@ =~= Seq::new(n as nat, |i: int| color));
    }

    /// Lets `drawable` paint itself onto this canvas.
    pub fn draw<T>(&mut self, drawable: T) where T: Draw
        requires
            old(self).wf(),
        ensures
            final(self).wf(),
            final(self)@.width == old(self)@.width,
            final(self)@.height == old(self)@.height,
    {
        drawable.draw(self);
    }

    /// Composites `color` over pixel `(x, y)`; `None`, and no change, when the
    /// pixel lies outside. Every shape paints through this.
    pub fn draw_pixel(&mut self, x: isize, y: isize, color: RGBA) -> (r: Option<()>)
        requires
            old(self).wf(),
        ensures
            final(self).wf(),
            r.is_some() == old(self)@.inside(x as int, y as int),
            final(self)@ == old(self)@.paint(x as int, y as int, color),
    {
        if !self.pixel_inside(x, y) {
            return None;
        }
        let old_color = *self.get(x as usize, y as usize).unwrap();
        let new_color = old_color.add_rgba(color);
        self.set(x as usize, y as usize, new_color)
    }

    /// Paints `color` at each of `pts`, in order.
    pub fn draw_points(&mut self, pts: &Vec<(isize, isize)>, color: RGBA)
        requires
            old(self).wf(),
        ensures
            final(self).wf(),
            final(self)@ == old(self)@.paint_all(int_points(pts@), color),
    {
        let ghost start = self@;
        let ghost all = int_points(pts@);
        let mut i: usize = 0;
        while i < pts.len()
            invariant
                self.wf(),
                i <= pts@.len(),
                all == int_points(pts@),
                self@ == start.paint_all(all.take(i as int), color),
            decreases pts@.len() - i,
        {
            let (x, y) = pts[i];
            self.draw_pixel(x, y, color);
            assert(all.take(i + 1).drop_last() =~= all.take(i as int));
            i += 1;
        }
        assert(all.take(i as int) =~= all);
    }
}

} // verus!

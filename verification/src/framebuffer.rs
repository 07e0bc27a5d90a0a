use vstd::prelude::*;
use crate::color::Color;
use crate::depth::Depth;
use crate::depth::INFINITY_BITS;
use crate::visibility::resolve;

verus! {

/// What one cell of the buffer holds: the colour shown and the depth of the
/// surface that it was taken from.
#[derive(Clone, Copy, Debug, PartialEq, Eq, Structural)]
pub struct Pixel {
    pub color: Color,
    pub depth: Depth,
}

/// The mathematical content of a frame buffer: a grid of pixels addressed by
/// column `x` and row `y`, origin at the top left, and the two colours that
/// drawing and clearing use.
pub struct FramebufferView {
    pub width: int,
    pub height: int,
    pub pixels: Map<(int, int), Pixel>,
    pub background: Color,
    pub current: Color,
}

impl FramebufferView {
    /// Whether `(x, y)` addresses a cell of the grid.
    pub open spec fn in_bounds(self, x: int, y: int) -> bool {
        0 <= x < self.width && 0 <= y < self.height
    }

    /// The grid has exactly the cells in bounds, its extent fits the signed
    /// coordinates that pixels are addressed with, and every stored depth
    /// encodes a number.
    pub open spec fn wf(self) -> bool {
        &&& 0 <= self.width <= i32::MAX
        &&& 0 <= self.height <= i32::MAX
        &&& forall|x: int, y: int| #[trigger]
            self.pixels.dom().contains((x, y)) <==> self.in_bounds(x, y)
        &&& forall|x: int, y: int|
            self.in_bounds(x, y) ==> !(#[trigger] self.pixels[(x, y)]).depth.is_nan()
    }

    /// Same extent and the same two colours; the pixels may differ.
    pub open spec fn same_frame(self, other: FramebufferView) -> bool {
        &&& self.width == other.width
        &&& self.height == other.height
        &&& self.background == other.background
        &&& self.current == other.current
    }

    /// The buffer with `(x, y)` recoloured and its depth kept; the buffer
    /// itself where `(x, y)` is out of bounds.
    pub open spec fn with_color(self, x: int, y: int, color: Color) -> FramebufferView {
        if self.in_bounds(x, y) {
            FramebufferView {
                pixels: self.pixels.insert(
                    (x, y),
                    Pixel { color, depth: self.pixels[(x, y)].depth },
                ),
                ..self
            }
        } else {
            self
        }
    }

    /// The buffer after a depth-tested write: the pixel at `(x, y)` is
    /// resolved against `fragment`, which replaces it where it is strictly
    /// nearer. A tie keeps what was drawn first. The buffer itself where
    /// `(x, y)` is out of bounds.
    pub open spec fn with_fragment(self, x: int, y: int, fragment: Pixel) -> FramebufferView {
        if self.in_bounds(x, y) {
            FramebufferView {
                pixels: self.pixels.insert((x, y), resolve(self.pixels[(x, y)], fragment)),
                ..self
            }
        } else {
            self
        }
    }

    /// A buffer of the given extent and colours in which every pixel shows
    /// `background` and is infinitely far away.
    pub open spec fn blank(
        width: int,
        height: int,
        background: Color,
        current: Color,
    ) -> FramebufferView {
        FramebufferView {
            width,
            height,
            pixels: Map::new(
                |p: (int, int)| 0 <= p.0 < width && 0 <= p.1 < height,
                |p: (int, int)| Pixel { color: background, depth: Depth { bits: INFINITY_BITS } },
            ),
            background,
            current,
        }
    }

    /// The buffer with every pixel at the background colour and infinitely
    /// far away.
    pub open spec fn cleared(self) -> FramebufferView {
        FramebufferView::blank(self.width, self.height, self.background, self.current)
    }

    /// The buffer with every pixel that `mask` selects recoloured, and all
    /// depths kept.
    pub open spec fn painted(
        self,
        mask: spec_fn(int, int) -> bool,
        color: Color,
    ) -> FramebufferView {
        FramebufferView {
            pixels: Map::new(
                |p: (int, int)| self.in_bounds(p.0, p.1),
                |p: (int, int)|
                    if mask(p.0, p.1) {
                        Pixel { color, depth: self.pixels[p].depth }
                    } else {
                        self.pixels[p]
                    },
            ),
            ..self
        }
    }

    /// Two well-formed buffers with the same frame and the same pixel in
    /// every cell are equal.
    pub proof fn lemma_equal(self, other: FramebufferView)
        requires
            self.wf(),
            other.wf(),
            self.same_frame(other),
            forall|x: int, y: int|
                self.in_bounds(x, y) ==> #[trigger] self.pixels[(x, y)] == other.pixels[(x, y)],
        ensures
            self == other,
    {
        assert forall|p: (int, int)| #[trigger]
            self.pixels.dom().contains(p) <==> other.pixels.dom().contains(p) by {
            assert(self.pixels.dom().contains((p.0, p.1)) <==> self.in_bounds(p.0, p.1));
            assert(other.pixels.dom().contains((p.0, p.1)) <==> other.in_bounds(p.0, p.1));
        }
        assert forall|p: (int, int)| #[trigger] other.pixels.dom().contains(p) implies self.pixels[p]
            == other.pixels[p] by {
            assert(other.pixels.dom().contains((p.0, p.1)) <==> other.in_bounds(p.0, p.1));
            assert(self.pixels[(p.0, p.1)] == other.pixels[(p.0, p.1)]);
        }
        assert(self.pixels.dom() =~= other.pixels.dom());
        assert(self.pixels =~= other.pixels);
    }
}

/// A colour grid with a depth grid of the same extent.
///
/// Both grids are stored row by row. The extent is fixed at construction, and
/// no stored depth is ever a pattern that encodes no number.
pub struct Framebuffer {
    width: u32,
    height: u32,
    color_buffer: Vec<Color>,
    z_buffer: Vec<Depth>,
    background_color: Color,
    current_color: Color,
}

/// A cell inside a `w` by `h` grid has a row-major index inside the grid.
proof fn lemma_index_in_range(x: int, y: int, w: int, h: int)
    requires
        0 <= x < w,
        0 <= y < h,
    ensures
        0 <= y * w + x < w * h,
{
    assert(0 <= y * w && (y + 1) * w <= h * w) by (nonlinear_arith)
        requires
            0 <= y < h,
            0 < w,
    ;
    assert((y + 1) * w == y * w + w) by (nonlinear_arith);
    assert(h * w == w * h) by (nonlinear_arith);
}

/// Two cells of one grid with the same row-major index are the same cell.
proof fn lemma_index_injective(x1: int, y1: int, x2: int, y2: int, w: int)
    requires
        0 <= x1 < w,
        0 <= x2 < w,
        y1 * w + x1 == y2 * w + x2,
    ensures
        x1 == x2,
        y1 == y2,
{
    assert(y1 == y2) by (nonlinear_arith)
        requires
            0 <= x1 < w,
            0 <= x2 < w,
            y1 * w + x1 == y2 * w + x2,
    {
        if y1 < y2 {
            assert((y2 - y1) * w >= w);
            assert(y2 * w - y1 * w == (y2 - y1) * w);
        } else if y2 < y1 {
            assert((y1 - y2) * w >= w);
            assert(y1 * w - y2 * w == (y1 - y2) * w);
        }
    }
}

/// Two grids with the same cells and the same pixel in each are one grid.
proof fn lemma_same_pixels(a: Map<(int, int), Pixel>, b: Map<(int, int), Pixel>)
    requires
        forall|p: (int, int)| #[trigger] a.dom().contains(p) <==> b.dom().contains(p),
        forall|p: (int, int)| #[trigger] b.dom().contains(p) ==> a[p] == b[p],
    ensures
        a == b,
{
    assert(a.dom() =~= b.dom());
    assert(a =~= b);
}

/// Overwrites one cell of a depth grid.
fn store(grid: &mut Vec<Depth>, idx: usize, depth: Depth)
    requires
        idx < old(grid)@.len(),
    ensures
        final(grid)@ == old(grid)@.update(idx as int, depth),
    no_unwind
{
    grid[idx] = depth;
}

impl View for Framebuffer {
    type V = FramebufferView;

    closed spec fn view(&self) -> FramebufferView {
        FramebufferView {
            width: self.width as int,
            height: self.height as int,
            pixels: Map::new(
                |p: (int, int)| 0 <= p.0 < self.width && 0 <= p.1 < self.height,
                |p: (int, int)|
                    Pixel {
                        color: self.color_buffer@[p.1 * self.width + p.0],
                        depth: self.z_buffer@[p.1 * self.width + p.0],
                    },
            ),
            background: self.background_color,
            current: self.current_color,
        }
    }
}

impl Framebuffer {
    /// What every frame buffer keeps: the two grids have the extent of the
    /// buffer, the extent fits the signed coordinates that pixels are
    /// addressed with, and no stored depth is a pattern without a number.
    #[verifier::type_invariant]
    pub closed spec fn inv(self) -> bool {
        &&& self.width <= i32::MAX
        &&& self.height <= i32::MAX
        &&& self.color_buffer@.len() == self.width * self.height
        &&& self.z_buffer@.len() == self.width * self.height
        &&& forall|i: int| 0 <= i < self.z_buffer@.len() ==> !(#[trigger] self.z_buffer@[i]).is_nan()
    }

    /// A buffer that keeps its invariant has a well-formed view.
    pub proof fn lemma_view_wf(self)
        requires
            self.inv(),
        ensures
            self@.wf(),
    {
        assert forall|x: int, y: int| self@.in_bounds(x, y) implies !(#[trigger] self@.pixels[(
            x,
            y,
        )]).depth.is_nan() by {
            lemma_index_in_range(x, y, self.width as int, self.height as int);
        }
    }

    /// Creates a buffer of `width` by `height` pixels.
    ///
    /// Every pixel starts out night-sky blue and infinitely far away, and the
    /// draw colour is white. The background is the night-sky blue as well:
    /// the colour passed here does not change it, and a caller that wants
    /// another background sets it with [`Framebuffer::set_background_color`]
    /// before the next [`Framebuffer::clear`].
    pub fn new(width: u32, height: u32, _background_color: Color) -> (fb: Framebuffer)
        requires
            width <= i32::MAX,
            height <= i32::MAX,
            width * height <= u32::MAX,
        ensures
            fb@.wf(),
            fb@ == FramebufferView::blank(
                width as int,
                height as int,
                Color::night_sky(),
                Color::white(),
            ),
    {
        let cells: u32 = width * height;
        let mut color_buffer: Vec<Color> = Vec::new();
        let mut z_buffer: Vec<Depth> = Vec::new();
        let mut i: u32 = 0;
        while i < cells
            invariant
                i <= cells,
                color_buffer@.len() == i,
                z_buffer@.len() == i,
                forall|k: int| 0 <= k < i ==> #[trigger] color_buffer@[k] == Color::night_sky(),
                forall|k: int| 0 <= k < i ==> (#[trigger] z_buffer@[k]).bits == INFINITY_BITS,
            decreases cells - i,
        {
            color_buffer.push(Color::night_sky());
            z_buffer.push(Depth::infinity());
            i = i + 1;
        }
        let fb = Framebuffer {
            width,
            height,
            color_buffer,
            z_buffer,
            background_color: Color::night_sky(),
            current_color: Color::white(),
        };
        proof {
            fb.lemma_view_wf();
            let goal = FramebufferView::blank(
                width as int,
                height as int,
                Color::night_sky(),
                Color::white(),
            );
            assert forall|p: (int, int)| #[trigger] goal.pixels.dom().contains(p) implies fb@.pixels[p]
                == goal.pixels[p] by {
                lemma_index_in_range(p.0, p.1, width as int, height as int);
            }
            lemma_same_pixels(fb@.pixels, goal.pixels);
        }
        fb
    }

    /// The row-major index of a cell in bounds.
    fn index(&self, x: i32, y: i32) -> (idx: usize)
        requires
            self@.in_bounds(x as int, y as int),
        ensures
            idx == y * self.width + x,
            idx < self.color_buffer@.len(),
            idx < self.z_buffer@.len(),
    {
        proof {
            use_type_invariant(self);
            lemma_index_in_range(x as int, y as int, self.width as int, self.height as int);
            assert(self.color_buffer.len() == self.width * self.height);
            assert(0 <= y * self.width) by (nonlinear_arith)
                requires
                    0 <= y,
                    0 <= self.width,
            ;
        }
        let row: usize = (y as usize) * (self.width as usize);
        row + (x as usize)
    }

    /// Whether `(x, y)` addresses a cell of the grid.
    pub fn contains(&self, x: i32, y: i32) -> (b: bool)
        ensures
            b == self@.in_bounds(x as int, y as int),
    {
        proof {
            use_type_invariant(self);
        }
        x >= 0 && y >= 0 && (x as u32) < self.width && (y as u32) < self.height
    }

    /// Resets every pixel to the background colour and to infinite depth.
    pub fn clear(&mut self)
        ensures
            final(self)@.wf(),
            final(self)@ == old(self)@.cleared(),
    {
        proof {
            use_type_invariant(&*self);
        }
        let cells: usize = self.color_buffer.len();
        let mut i: usize = 0;
        while i < cells
            invariant
                i <= cells,
                self.width == old(self).width,
                self.height == old(self).height,
                self.background_color == old(self).background_color,
                self.current_color == old(self).current_color,
                self.width <= i32::MAX,
                self.height <= i32::MAX,
                self.color_buffer@.len() == cells,
                self.z_buffer@.len() == cells,
                cells == self.width * self.height,
                forall|k: int|
                    0 <= k < self.z_buffer@.len() ==> !(#[trigger] self.z_buffer@[k]).is_nan(),
                forall|k: int| 0 <= k < i ==> #[trigger] self.color_buffer@[k] == self.background_color,
                forall|k: int| 0 <= k < i ==> (#[trigger] self.z_buffer@[k]).bits == INFINITY_BITS,
            decreases cells - i,
        {
            self.color_buffer[i] = self.background_color;
            store(&mut self.z_buffer, i, Depth::infinity());
            i = i + 1;
        }
        proof {
            self.lemma_view_wf();
            let goal = old(self)@.cleared();
            assert forall|p: (int, int)| #[trigger] goal.pixels.dom().contains(p) implies self@.pixels[p]
                == goal.pixels[p] by {
                lemma_index_in_range(p.0, p.1, self.width as int, self.height as int);
            }
            lemma_same_pixels(self@.pixels, goal.pixels);
        }
    }

    /// Sets the colour that [`Framebuffer::set_pixel`] and
    /// [`Framebuffer::set_pixel_depth`] draw with.
    pub fn set_current_color(&mut self, color: Color)
        ensures
            final(self)@.wf(),
            final(self)@ == (FramebufferView { current: color, ..old(self)@ }),
    {
        proof {
            use_type_invariant(&*self);
        }
        self.current_color = color;
        proof {
            self.lemma_view_wf();
            lemma_same_pixels(self@.pixels, old(self)@.pixels);
        }
    }

    /// Sets the colour that [`Framebuffer::clear`] fills the buffer with.
    pub fn set_background_color(&mut self, color: Color)
        ensures
            final(self)@.wf(),
            final(self)@ == (FramebufferView { background: color, ..old(self)@ }),
    {
        proof {
            use_type_invariant(&*self);
        }
        self.background_color = color;
        proof {
            self.lemma_view_wf();
            lemma_same_pixels(self@.pixels, old(self)@.pixels);
        }
    }

    /// Writes the draw colour to `(x, y)`, whatever its depth. Coordinates out
    /// of bounds are ignored.
    pub fn set_pixel(&mut self, x: i32, y: i32)
        ensures
            final(self)@.wf(),
            final(self)@ == old(self)@.with_color(x as int, y as int, old(self)@.current),
            !old(self)@.in_bounds(x as int, y as int) ==> final(self)@ == old(self)@,
    {
        let color = self.current_color;
        self.set_pixel_with_color(x, y, color);
    }

    /// Writes `color` to `(x, y)`, whatever its depth. Coordinates out of
    /// bounds are ignored.
    pub fn set_pixel_with_color(&mut self, x: i32, y: i32, color: Color)
        ensures
            final(self)@.wf(),
            final(self)@ == old(self)@.with_color(x as int, y as int, color),
            !old(self)@.in_bounds(x as int, y as int) ==> final(self)@ == old(self)@,
    {
        proof {
            use_type_invariant(&*self);
            self.lemma_view_wf();
        }
        if self.contains(x, y) {
            let idx: usize = self.index(x, y);
            self.color_buffer[idx] = color;
            proof {
                self.lemma_view_wf();
                let goal = old(self)@.with_color(x as int, y as int, color);
                assert forall|p: (int, int)| #[trigger] goal.pixels.dom().contains(p) implies self@.pixels[p]
                    == goal.pixels[p] by {
                    lemma_index_in_range(p.0, p.1, self.width as int, self.height as int);
                    if p != (x as int, y as int) && p.1 * self.width + p.0 == idx {
                        lemma_index_injective(p.0, p.1, x as int, y as int, self.width as int);
                    }
                }
                lemma_same_pixels(self@.pixels, goal.pixels);
            }
        }
    }

    /// Writes the draw colour and `depth` to `(x, y)` where `depth` is
    /// strictly nearer than the depth stored there. Coordinates out of bounds
    /// are ignored, and so is a depth that encodes no number.
    pub fn set_pixel_depth(&mut self, x: i32, y: i32, depth: Depth)
        ensures
            final(self)@.wf(),
            final(self)@ == old(self)@.with_fragment(
                x as int,
                y as int,
                Pixel { color: old(self)@.current, depth },
            ),
            !old(self)@.in_bounds(x as int, y as int) ==> final(self)@ == old(self)@,
    {
        let color = self.current_color;
        self.set_fragment(x, y, Pixel { color, depth });
    }

    /// Writes `fragment` to `(x, y)` where its depth is strictly nearer than
    /// the depth stored there. Coordinates out of bounds are ignored, and so
    /// is a fragment whose depth encodes no number.
    pub fn set_fragment(&mut self, x: i32, y: i32, fragment: Pixel)
        ensures
            final(self)@.wf(),
            final(self)@ == old(self)@.with_fragment(x as int, y as int, fragment),
            !old(self)@.in_bounds(x as int, y as int) ==> final(self)@ == old(self)@,
    {
        proof {
            use_type_invariant(&*self);
            self.lemma_view_wf();
        }
        if self.contains(x, y) {
            let idx: usize = self.index(x, y);
            if fragment.depth.lt(self.z_buffer[idx]) {
                store(&mut self.z_buffer, idx, fragment.depth);
                self.color_buffer[idx] = fragment.color;
            }
            proof {
                self.lemma_view_wf();
                let goal = old(self)@.with_fragment(x as int, y as int, fragment);
                assert(old(self)@.pixels.dom().contains((x as int, y as int)));
                assert forall|p: (int, int)| #[trigger] goal.pixels.dom().contains(p) implies self@.pixels[p]
                    == goal.pixels[p] by {
                    lemma_index_in_range(p.0, p.1, self.width as int, self.height as int);
                    if p != (x as int, y as int) && p.1 * self.width + p.0 == idx {
                        lemma_index_injective(p.0, p.1, x as int, y as int, self.width as int);
                    }
                }
                lemma_same_pixels(self@.pixels, goal.pixels);
            }
        }
    }

    /// The pixel at `(x, y)`, or `None` out of bounds.
    pub fn pixel(&self, x: i32, y: i32) -> (p: Option<Pixel>)
        ensures
            p == if self@.in_bounds(x as int, y as int) {
                Some(self@.pixels[(x as int, y as int)])
            } else {
                None
            },
    {
        if self.contains(x, y) {
            let idx: usize = self.index(x, y);
            Some(Pixel { color: self.color_buffer[idx], depth: self.z_buffer[idx] })
        } else {
            None
        }
    }

    /// A copy of the colour grid, row by row from the top: the colour of
    /// `(x, y)` stands at index `y * width + x`.
    pub fn snapshot(&self) -> (colors: Vec<Color>)
        ensures
            colors@.len() == self@.width * self@.height,
            forall|x: int, y: int|
                self@.in_bounds(x, y) ==> colors@[y * self@.width + x] == (
                #[trigger] self@.pixels[(x, y)]).color,
    {
        proof {
            use_type_invariant(self);
        }
        let cells: usize = self.color_buffer.len();
        let mut colors: Vec<Color> = Vec::new();
        let mut i: usize = 0;
        while i < cells
            invariant
                i <= cells,
                cells == self.color_buffer@.len(),
                colors@.len() == i,
                forall|k: int| 0 <= k < i ==> #[trigger] colors@[k] == self.color_buffer@[k],
            decreases cells - i,
        {
            colors.push(self.color_buffer[i]);
            i = i + 1;
        }
        proof {
            assert forall|x: int, y: int| self@.in_bounds(x, y) implies colors@[y * self@.width
                + x] == (#[trigger] self@.pixels[(x, y)]).color by {
                lemma_index_in_range(x, y, self.width as int, self.height as int);
            }
        }
        colors
    }

    /// The number of columns.
    pub fn width(&self) -> (w: u32)
        ensures
            w == self@.width,
    {
        self.width
    }

    /// The number of rows.
    pub fn height(&self) -> (h: u32)
        ensures
            h == self@.height,
    {
        self.height
    }
}

} // verus!

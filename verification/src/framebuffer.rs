//! The frame buffer: a colour plane and a depth plane of the same size.
//!
//! Every pixel keeps the colour and depth of the nearest fragment written to
//! it since the last clear. A fragment replaces what a pixel holds only if
//! it is strictly nearer.

use crate::vector::Vector3;
use vstd::prelude::*;

verus! {

/// What the depth plane holds for one pixel.
#[derive(Clone, Copy, Debug, PartialEq, Eq, Structural)]
pub enum Depth {
    /// Nothing has been drawn: every fragment is nearer.
    Infinite,
    /// The depth of the nearest fragment drawn so far.
    Finite(i32),
}

impl Depth {
    /// Whether a fragment at `depth` is strictly nearer than this.
    pub open spec fn is_behind(self, depth: i32) -> bool {
        match self {
            Depth::Infinite => true,
            Depth::Finite(stored) => depth < stored,
        }
    }
}

/// One pixel of the frame buffer.
#[derive(Clone, Copy, Debug, PartialEq, Eq, Structural)]
pub struct Pixel {
    pub color: Vector3,
    pub depth: Depth,
}

/// The mathematical content of a frame buffer: its size, its background
/// colour and its pixels, row by row.
pub struct Frame {
    pub width: nat,
    pub height: nat,
    pub background: Vector3,
    pub pixels: Seq<Pixel>,
}

impl Frame {
    /// A frame holds one pixel for every position.
    pub open spec fn wf(self) -> bool {
        self.pixels.len() == self.width * self.height
    }

    /// Whether `(x, y)` names a pixel of the frame.
    pub open spec fn in_bounds(self, x: int, y: int) -> bool {
        0 <= x < self.width && 0 <= y < self.height
    }

    /// The place of the pixel `(x, y)` in `pixels`.
    pub open spec fn index(self, x: int, y: int) -> int {
        y * self.width + x
    }

    /// The pixel at `(x, y)`.
    pub open spec fn pixel(self, x: int, y: int) -> Pixel {
        self.pixels[self.index(x, y)]
    }

    /// The frame of the given size in which nothing has been drawn.
    pub open spec fn blank(width: nat, height: nat, background: Vector3) -> Frame {
        Frame {
            width,
            height,
            background,
            pixels: Seq::new(
                width * height,
                |i: int| Pixel { color: background, depth: Depth::Infinite },
            ),
        }
    }

    /// The frame after a clear: every pixel shows the background and is
    /// infinitely far away.
    pub open spec fn cleared(self) -> Frame {
        Frame::blank(self.width, self.height, self.background)
    }

    /// The frame with another background colour. The pixels keep what they
    /// hold until the next clear.
    pub open spec fn with_background(self, color: Vector3) -> Frame {
        Frame { background: color, ..self }
    }

    /// The frame after a fragment of the given colour and depth has been
    /// offered to the pixel `(x, y)`: the pixel takes it if it exists and
    /// the fragment is strictly nearer than what it holds; nothing else
    /// changes.
    pub open spec fn point(self, x: int, y: int, color: Vector3, depth: i32) -> Frame {
        if self.in_bounds(x, y) && self.pixel(x, y).depth.is_behind(depth) {
            Frame {
                pixels: self.pixels.update(
                    self.index(x, y),
                    Pixel { color, depth: Depth::Finite(depth) },
                ),
                ..self
            }
        } else {
            self
        }
    }
}

/// Different positions of a frame have different places in its pixel
/// sequence, all within it.
pub proof fn lemma_index_injective(frame: Frame, x1: int, y1: int, x2: int, y2: int)
    requires
        frame.wf(),
        frame.in_bounds(x1, y1),
        frame.in_bounds(x2, y2),
    ensures
        0 <= frame.index(x1, y1) < frame.pixels.len(),
        frame.index(x1, y1) == frame.index(x2, y2) ==> x1 == x2 && y1 == y2,
{
    let w = frame.width as int;
    let h = frame.height as int;
    assert(0 <= y1 * w && y1 * w + w <= w * h) by (nonlinear_arith)
        requires
            0 <= y1 < h,
            w > 0,
    ;
    if y1 < y2 {
        assert(y1 * w + w <= y2 * w) by (nonlinear_arith)
            requires
                y1 + 1 <= y2,
                w > 0,
        ;
    } else if y2 < y1 {
        assert(y2 * w + w <= y1 * w) by (nonlinear_arith)
            requires
                y2 + 1 <= y1,
                w > 0,
        ;
    }
}

/// Writing a fragment keeps a frame well formed and changes at most the
/// pixel written to.
pub proof fn lemma_point_changes_one_pixel(
    frame: Frame,
    x: int,
    y: int,
    color: Vector3,
    depth: i32,
    i: int,
    j: int,
)
    requires
        frame.wf(),
        frame.in_bounds(i, j),
    ensures
        frame.point(x, y, color, depth).wf(),
        frame.point(x, y, color, depth).width == frame.width,
        frame.point(x, y, color, depth).height == frame.height,
        frame.point(x, y, color, depth).background == frame.background,
        frame.point(x, y, color, depth).pixel(i, j) == (if i == x && j == y
            && frame.pixel(x, y).depth.is_behind(depth) {
            Pixel { color, depth: Depth::Finite(depth) }
        } else {
            frame.pixel(i, j)
        }),
{
    if frame.in_bounds(x, y) {
        lemma_index_injective(frame, x, y, i, j);
    }
    lemma_index_injective(frame, i, j, i, j);
}

/// The order of two writes does not matter, unless both go to the same
/// pixel with the same depth.
pub proof fn law_points_commute(
    frame: Frame,
    x1: int,
    y1: int,
    color1: Vector3,
    depth1: i32,
    x2: int,
    y2: int,
    color2: Vector3,
    depth2: i32,
)
    requires
        frame.wf(),
        x1 != x2 || y1 != y2 || depth1 != depth2,
    ensures
        frame.point(x1, y1, color1, depth1).point(x2, y2, color2, depth2) == frame.point(
            x2,
            y2,
            color2,
            depth2,
        ).point(x1, y1, color1, depth1),
{
    let one = frame.point(x1, y1, color1, depth1).point(x2, y2, color2, depth2);
    let other = frame.point(x2, y2, color2, depth2).point(x1, y1, color1, depth1);
    if frame.in_bounds(x1, y1) && frame.in_bounds(x2, y2) {
        lemma_index_injective(frame, x1, y1, x2, y2);
    }
    if frame.in_bounds(x1, y1) {
        lemma_index_injective(frame, x1, y1, x1, y1);
    }
    if frame.in_bounds(x2, y2) {
        lemma_index_injective(frame, x2, y2, x2, y2);
    }
    assert(one.pixels =~= other.pixels);
}

/// The nearer of two fragments for the same pixel wins, in whichever order
/// they are written: the pixel ends up with the colour and depth of the
/// nearer one if that one is nearer than what the pixel held, and the frame
/// stays as it was otherwise.
pub proof fn law_nearer_wins(
    frame: Frame,
    x: int,
    y: int,
    near_color: Vector3,
    near_depth: i32,
    far_color: Vector3,
    far_depth: i32,
)
    requires
        frame.wf(),
        frame.in_bounds(x, y),
        near_depth < far_depth,
    ensures
        frame.point(x, y, near_color, near_depth).point(x, y, far_color, far_depth) == frame.point(
            x,
            y,
            near_color,
            near_depth,
        ),
        frame.point(x, y, far_color, far_depth).point(x, y, near_color, near_depth) == frame.point(
            x,
            y,
            near_color,
            near_depth,
        ),
        frame.pixel(x, y).depth.is_behind(near_depth) ==> frame.point(
            x,
            y,
            near_color,
            near_depth,
        ).pixel(x, y) == (Pixel { color: near_color, depth: Depth::Finite(near_depth) }),
        !frame.pixel(x, y).depth.is_behind(near_depth) ==> frame.point(
            x,
            y,
            near_color,
            near_depth,
        ) == frame,
{
    lemma_index_injective(frame, x, y, x, y);
    let near_first = frame.point(x, y, near_color, near_depth).point(x, y, far_color, far_depth);
    let far_first = frame.point(x, y, far_color, far_depth).point(x, y, near_color, near_depth);
    let near_only = frame.point(x, y, near_color, near_depth);
    assert(near_first.pixels =~= near_only.pixels);
    assert(far_first.pixels =~= near_only.pixels);
}

/// A clear leaves nothing of what was drawn before: the cleared frame
/// depends only on the size and the background colour.
pub proof fn law_clear_forgets(one: Frame, other: Frame)
    requires
        one.width == other.width,
        one.height == other.height,
        one.background == other.background,
    ensures
        one.cleared() == other.cleared(),
{
}

/// After a clear, one write shows as exactly that write: the pixel written
/// to holds the fragment, every other pixel the background at infinite
/// depth. A write outside the frame leaves the cleared frame.
pub proof fn law_point_after_clear(frame: Frame, x: int, y: int, color: Vector3, depth: i32)
    requires
        frame.wf(),
    ensures
        !frame.in_bounds(x, y) ==> frame.cleared().point(x, y, color, depth) == frame.cleared(),
        forall|i: int, j: int|
            frame.in_bounds(i, j) ==> #[trigger] frame.cleared().point(x, y, color, depth).pixel(
                i,
                j,
            ) == (if i == x && j == y {
                Pixel { color, depth: Depth::Finite(depth) }
            } else {
                Pixel { color: frame.background, depth: Depth::Infinite }
            }),
{
    let blank = frame.cleared();
    assert forall|i: int, j: int| frame.in_bounds(i, j) implies #[trigger] blank.point(
        x,
        y,
        color,
        depth,
    ).pixel(i, j) == (if i == x && j == y {
        Pixel { color, depth: Depth::Finite(depth) }
    } else {
        Pixel { color: frame.background, depth: Depth::Infinite }
    }) by {
        lemma_index_injective(blank, i, j, i, j);
        lemma_point_changes_one_pixel(blank, x, y, color, depth, i, j);
    }
}

/// A frame buffer of fixed size.
pub struct Framebuffer {
    width: usize,
    height: usize,
    background: Vector3,
    color: Vec<Vector3>,
    depth: Vec<Depth>,
}

impl View for Framebuffer {
    type V = Frame;

    closed spec fn view(&self) -> Frame {
        Frame {
            width: self.width as nat,
            height: self.height as nat,
            background: self.background,
            pixels: Seq::new(
                self.color@.len(),
                |i: int| Pixel { color: self.color@[i], depth: self.depth@[i] },
            ),
        }
    }
}

impl Framebuffer {
    #[verifier::type_invariant]
    spec fn inv(self) -> bool {
        &&& self.color@.len() == self.width * self.height
        &&& self.depth@.len() == self.width * self.height
    }

    /// A black frame buffer of `width` by `height` pixels in which nothing
    /// has been drawn.
    pub fn new(width: u32, height: u32) -> (framebuffer: Framebuffer)
        requires
            width * height <= usize::MAX,
        ensures
            framebuffer@ == Frame::blank(
                width as nat,
                height as nat,
                Vector3 { x: 0, y: 0, z: 0 },
            ),
    {
        let background = Vector3 { x: 0, y: 0, z: 0 };
        let count: usize = (width as usize) * (height as usize);
        let mut color: Vec<Vector3> = Vec::new();
        let mut depth: Vec<Depth> = Vec::new();
        let mut i: usize = 0;
        while i < count
            invariant
                i <= count,
                color@.len() == i,
                depth@.len() == i,
                forall|k: int| 0 <= k < i ==> color@[k] == background,
                forall|k: int| 0 <= k < i ==> depth@[k] == Depth::Infinite,
            decreases count - i,
        {
            color.push(background);
            depth.push(Depth::Infinite);
            i = i + 1;
        }
        let framebuffer = Framebuffer {
            width: width as usize,
            height: height as usize,
            background,
            color,
            depth,
        };
        assert(framebuffer@.pixels =~= Frame::blank(
            width as nat,
            height as nat,
            background,
        ).pixels);
        framebuffer
    }

    /// The number of pixel columns.
    pub fn width(&self) -> (w: usize)
        ensures
            w == self@.width,
            self@.wf(),
    {
        proof {
            use_type_invariant(self);
        }
        self.width
    }

    /// The number of pixel rows.
    pub fn height(&self) -> (h: usize)
        ensures
            h == self@.height,
            self@.wf(),
    {
        proof {
            use_type_invariant(self);
        }
        self.height
    }

    /// Sets the colour that the next clear fills the frame with.
    pub fn set_background_color(&mut self, color: Vector3)
        ensures
            final(self)@ == old(self)@.with_background(color),
    {
        proof {
            use_type_invariant(&*self);
        }
        self.background = color;
    }

    /// Starts a new image: every pixel takes the background colour and an
    /// infinite depth.
    pub fn clear(&mut self)
        ensures
            final(self)@ == old(self)@.cleared(),
    {
        proof {
            use_type_invariant(&*self);
        }
        let count = self.color.len();
        let mut i: usize = 0;
        while i < count
            invariant
                i <= count,
                count == self.color@.len(),
                count == self.depth@.len(),
                self.width == old(self).width,
                self.height == old(self).height,
                self.background == old(self).background,
                count == self.width * self.height,
                forall|k: int| 0 <= k < i ==> self.color@[k] == self.background,
                forall|k: int| 0 <= k < i ==> self.depth@[k] == Depth::Infinite,
            decreases count - i,
        {
            self.color[i] = self.background;
            self.depth[i] = Depth::Infinite;
            i = i + 1;
        }
        assert(self@.pixels =~= old(self)@.cleared().pixels);
    }

    /// Offers a fragment of the given colour and depth to the pixel in column
    /// `x` of row `y`. Positions outside the frame are ignored. Inside, the
    /// pixel takes the colour and the depth if the fragment is strictly
    /// nearer than what it holds, and stays as it is otherwise.
    pub fn point(&mut self, x: i32, y: i32, color: Vector3, depth: i32)
        ensures
            final(self)@ == old(self)@.point(x as int, y as int, color, depth),
    {
        proof {
            use_type_invariant(&*self);
        }
        if x < 0 || y < 0 {
            return ;
        }
        let column = x as usize;
        let row = y as usize;
        if column >= self.width || row >= self.height {
            return ;
        }
        assert(self.color.len() == self.width * self.height);
        assert(0 <= row * self.width && row * self.width + self.width <= self.width
            * self.height) by (nonlinear_arith)
            requires
                0 <= row < self.height,
                0 <= column < self.width,
        ;
        let index = row * self.width + column;
        let nearer = match self.depth[index] {
            Depth::Infinite => true,
            Depth::Finite(stored) => depth < stored,
        };
        if nearer {
            self.color[index] = color;
            self.depth[index] = Depth::Finite(depth);
            assert(self@.pixels =~= old(self)@.point(x as int, y as int, color, depth).pixels);
        }
    }

    /// The pixel in column `x` of row `y`, or nothing if the frame has no
    /// such pixel.
    pub fn get(&self, x: i32, y: i32) -> (pixel: Option<Pixel>)
        ensures
            pixel == (if self@.in_bounds(x as int, y as int) {
                Some(self@.pixel(x as int, y as int))
            } else {
                None
            }),
    {
        proof {
            use_type_invariant(self);
        }
        if x < 0 || y < 0 {
            return None;
        }
        let column = x as usize;
        let row = y as usize;
        if column >= self.width || row >= self.height {
            return None;
        }
        assert(self.color.len() == self.width * self.height);
        assert(0 <= row * self.width && row * self.width + self.width <= self.width
            * self.height) by (nonlinear_arith)
            requires
                0 <= row < self.height,
                0 <= column < self.width,
        ;
        let index = row * self.width + column;
        Some(Pixel { color: self.color[index], depth: self.depth[index] })
    }

    /// The colour plane, row by row, as the display reads it.
    pub fn colors(&self) -> (plane: &Vec<Vector3>)
        ensures
            plane@ == self@.pixels.map_values(|p: Pixel| p.color),
    {
        assert(self.color@ =~= self@.pixels.map_values(|p: Pixel| p.color));
        &self.color
    }
}

} // verus!

use vstd::prelude::*;

verus! {

/// An 8-bit-per-channel pixel, the form a canvas takes just before it is
/// encoded to a pixel file. The renderer's unclamped real-valued colors are
/// clipped into this range by the caller.
#[derive(Clone, Copy, Debug, PartialEq, Eq, Structural)]
pub struct Rgb {
    pub red: u8,
    pub green: u8,
    pub blue: u8,
}

/// A dense row-major grid of pixels: the pixel at column `x`, row `y` sits at
/// index `y * width + x` of `pixels`.
pub struct Canvas<T> {
    pub width: usize,
    pub height: usize,
    pub pixels: Vec<T>,
}

impl<T> Canvas<T> {
    /// The grid holds exactly one pixel per coordinate pair.
    pub open spec fn wf(self) -> bool {
        self.pixels@.len() == self.width * self.height
    }

    /// The row-major index of column `x`, row `y`.
    pub open spec fn spec_index_of(self, x: int, y: int) -> int {
        y * self.width + x
    }

    /// The pixel stored at column `x`, row `y`.
    pub open spec fn pixel(self, x: int, y: int) -> T {
        self.pixels@[self.spec_index_of(x, y)]
    }
}

/// The row-major position of column `x`, row `y` stays inside the grid.
pub proof fn lemma_index_in_range(width: nat, height: nat, x: nat, y: nat)
    requires
        x < width,
        y < height,
    ensures
        y * width + x < width * height,
        width * y + x < width * height,
{
    assert(y * width + x < width * height && width * y + x < width * height)
        by (nonlinear_arith)
        requires
            x < width,
            y < height,
    ;
}

/// A grid of `width * height` copies of `fill`.
pub fn canvas_of<T: Copy>(width: usize, height: usize, fill: T) -> (c: Canvas<T>)
    requires
        width * height <= usize::MAX,
    ensures
        c.wf(),
        c.width == width,
        c.height == height,
        forall|i: int| 0 <= i < c.pixels@.len() ==> c.pixels@[i] == fill,
{
    let n = width * height;
    let mut pixels: Vec<T> = Vec::new();
    let mut i: usize = 0;
    while i < n
        invariant
            i <= n,
            pixels@.len() == i,
            forall|j: int| 0 <= j < i ==> pixels@[j] == fill,
        decreases n - i,
    {
        pixels.push(fill);
        i = i + 1;
    }
    Canvas { width, height, pixels }
}

/// A black canvas, ready for rendering.
pub fn canvas(width: usize, height: usize) -> (c: Canvas<Rgb>)
    requires
        width * height <= usize::MAX,
    ensures
        c.wf(),
        c.width == width,
        c.height == height,
        forall|i: int| 0 <= i < c.pixels@.len() ==> c.pixels@[i] == (Rgb {
            red: 0,
            green: 0,
            blue: 0,
        }),
{
    canvas_of(width, height, Rgb { red: 0, green: 0, blue: 0 })
}

impl<T: Copy> Canvas<T> {
    /// Replaces the pixel at column `x`, row `y`, leaving every other pixel
    /// and the dimensions as they were.
    pub fn write_pixel(&mut self, x: usize, y: usize, c: T)
        requires
            old(self).wf(),
            x < old(self).width,
            y < old(self).height,
        ensures
            final(self).wf(),
            final(self).width == old(self).width,
            final(self).height == old(self).height,
            final(self).pixels@ == old(self).pixels@.update(
                old(self).spec_index_of(x as int, y as int),
                c,
            ),
            final(self).pixel(x as int, y as int) == c,
    {
        proof {
            vstd::std_specs::vec::axiom_spec_len(&self.pixels);
            lemma_index_in_range(self.width as nat, self.height as nat, x as nat, y as nat);
        }
        let i = self.width * y + x;
        self.pixels.set(i, c);
    }

    /// The pixel at column `x`, row `y`.
    pub fn pixel_at(&self, x: usize, y: usize) -> (c: T)
        requires
            self.wf(),
            x < self.width,
            y < self.height,
        ensures
            c == self.pixel(x as int, y as int),
    {
        proof {
            vstd::std_specs::vec::axiom_spec_len(&self.pixels);
            lemma_index_in_range(self.width as nat, self.height as nat, x as nat, y as nat);
        }
        let i = self.width * y + x;
        self.pixels[i]
    }
}

} // verus!

//! A rectangular grid of pixels, stored row by row.

use crate::true_color::TrueColor;
use vstd::prelude::*;

verus! {

/// A canvas of `width` columns and `height` rows. The pixel type `P` is left
/// open: a renderer keeps whatever colour representation it computes with.
pub struct Canvas<P> {
    width: usize,
    height: usize,
    pixels: Vec<P>,
}

impl<P> View for Canvas<P> {
    type V = Seq<P>;

    /// All pixels in row-major order, top row first.
    closed spec fn view(&self) -> Seq<P> {
        self.pixels@
    }
}

impl<P> Canvas<P> {
    #[verifier::type_invariant]
    spec fn well_formed(self) -> bool {
        self.pixels@.len() == self.width * self.height
    }

    /// The number of columns.
    pub closed spec fn spec_width(&self) -> usize {
        self.width
    }

    /// The number of rows.
    pub closed spec fn spec_height(&self) -> usize {
        self.height
    }

    /// Whether `(x, y)` names a pixel of this canvas.
    pub open spec fn in_range(&self, x: int, y: int) -> bool {
        0 <= x < self.width() && 0 <= y < self.height()
    }

    /// Where the pixel `(x, y)` lies in the row-major sequence.
    pub open spec fn index_of(&self, x: int, y: int) -> int {
        x + self.width() * y
    }

    /// The pixel at `(x, y)`.
    pub open spec fn pixel(&self, x: int, y: int) -> P {
        self@[self.index_of(x, y)]
    }

    /// The number of columns.
    #[verifier::when_used_as_spec(spec_width)]
    pub fn width(&self) -> (w: usize)
        ensures
            w == self.spec_width(),
            self@.len() == self.width() * self.height(),
    {
        proof {
            use_type_invariant(self);
        }
        self.width
    }

    /// The number of rows.
    #[verifier::when_used_as_spec(spec_height)]
    pub fn height(&self) -> (h: usize)
        ensures
            h == self.spec_height(),
            self@.len() == self.width() * self.height(),
    {
        proof {
            use_type_invariant(self);
        }
        self.height
    }

    /// All pixels in row-major order, top row first.
    pub fn pixels(&self) -> (pixels: &Vec<P>)
        ensures
            pixels@ == self@,
            self@.len() == self.width() * self.height(),
    {
        proof {
            use_type_invariant(self);
        }
        &self.pixels
    }
}

/// Every in-range coordinate pair has a slot in a row-major grid of
/// `width * height` pixels.
pub proof fn lemma_index_in_bounds(x: int, y: int, width: int, height: int)
    requires
        0 <= x < width,
        0 <= y < height,
    ensures
        0 <= width * y <= x + width * y < width * height,
{
    assert(width * y + width == width * (y + 1)) by (nonlinear_arith);
    assert(width * (y + 1) <= width * height) by (nonlinear_arith)
        requires
            0 <= width,
            y + 1 <= height,
    ;
    assert(0 <= width * y) by (nonlinear_arith)
        requires
            0 <= width,
            0 <= y,
    ;
}

/// No two coordinate pairs share a slot: column and row can be read back
/// from the row-major index.
pub proof fn lemma_index_decides_pixel(x: int, y: int, width: int)
    requires
        0 <= x < width,
        0 <= y,
    ensures
        (x + width * y) % width == x,
        (x + width * y) / width == y,
{
    assert(width * y == y * width) by (nonlinear_arith);
    vstd::arithmetic::div_mod::lemma_fundamental_div_mod_converse(x + width * y, width, y, x);
}

impl<P: Copy> Canvas<P> {
    /// A canvas whose every pixel is `color`.
    pub fn with_color(width: usize, height: usize, color: P) -> (canvas: Canvas<P>)
        requires
            width * height <= usize::MAX,
        ensures
            canvas.width() == width,
            canvas.height() == height,
            canvas@ == Seq::new((width * height) as nat, |i: int| color),
            forall|x: int, y: int| #[trigger] canvas.in_range(x, y) ==> canvas.pixel(x, y) == color,
    {
        let count = width * height;
        let mut pixels: Vec<P> = Vec::new();
        let mut filled: usize = 0;
        while filled < count
            invariant
                filled <= count,
                pixels@ == Seq::new(filled as nat, |i: int| color),
            decreases count - filled,
        {
            pixels.push(color);
            filled += 1;
        }
        let canvas = Canvas { width, height, pixels };
        proof {
            assert forall|x: int, y: int| #[trigger]
                canvas.in_range(x, y) implies canvas.pixel(x, y) == color by {
                lemma_index_in_bounds(x, y, width as int, height as int);
            }
        }
        canvas
    }

    /// The place of the pixel `(x, y)` among the stored pixels.
    fn get_index(&self, x: usize, y: usize) -> (index: usize)
        requires
            self.in_range(x as int, y as int),
        ensures
            index == self.index_of(x as int, y as int),
            index < self@.len(),
    {
        proof {
            use_type_invariant(self);
            lemma_index_in_bounds(x as int, y as int, self.width as int, self.height as int);
            assert(self.pixels@.len() == self.pixels.len());
        }
        x + self.width * y
    }

    /// The pixel at column `x` of row `y`.
    pub fn get_pixel(&self, x: usize, y: usize) -> (color: P)
        requires
            self.in_range(x as int, y as int),
        ensures
            color == self.pixel(x as int, y as int),
    {
        let index = self.get_index(x, y);
        self.pixels[index]
    }

    /// Paints the pixel at column `x` of row `y`. Coordinates outside the
    /// canvas are clipped: the call then changes nothing.
    pub fn set_pixel(&mut self, x: usize, y: usize, color: P)
        ensures
            final(self).width() == old(self).width(),
            final(self).height() == old(self).height(),
            old(self).in_range(x as int, y as int) ==> final(self)@ == old(self)@.update(
                old(self).index_of(x as int, y as int),
                color,
            ),
            !old(self).in_range(x as int, y as int) ==> final(self)@ == old(self)@,
            forall|i: int, j: int| #[trigger]
                old(self).in_range(i, j) ==> final(self).pixel(i, j) == if i == x && j == y {
                    color
                } else {
                    old(self).pixel(i, j)
                },
    {
        proof {
            use_type_invariant(&*self);
        }
        if x < self.width && y < self.height {
            let index = self.get_index(x, y);
            self.pixels[index] = color;
            proof {
                assert forall|i: int, j: int| #[trigger]
                    old(self).in_range(i, j) implies self.pixel(i, j) == if i == x && j == y {
                    color
                } else {
                    old(self).pixel(i, j)
                } by {
                    lemma_index_in_bounds(i, j, self.width as int, self.height as int);
                    lemma_index_decides_pixel(i, j, self.width as int);
                    lemma_index_decides_pixel(x as int, y as int, self.width as int);
                }
            }
        }
    }
}

impl Canvas<TrueColor> {
    /// A canvas whose every pixel is black.
    pub fn new(width: usize, height: usize) -> (canvas: Canvas<TrueColor>)
        requires
            width * height <= usize::MAX,
        ensures
            canvas.width() == width,
            canvas.height() == height,
            canvas@ == Seq::new((width * height) as nat, |i: int| TrueColor::black()),
            forall|x: int, y: int| #[trigger]
                canvas.in_range(x, y) ==> canvas.pixel(x, y) == TrueColor::black(),
    {
        Canvas::with_color(width, height, TrueColor::black())
    }
}

} // verus!

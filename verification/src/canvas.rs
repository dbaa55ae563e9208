//! The pixel canvas: a flat row-major RGB byte buffer of fixed dimensions,
//! with unchecked single-pixel writes as the only mutation primitive.

use vstd::prelude::*;

verus! {

/// An RGB colour: red, green and blue channel values, 8 bits each.
#[derive(Clone, Copy, PartialEq, Eq, Structural, Debug)]
pub struct Colour(pub u8, pub u8, pub u8);

/// A signed 2D coordinate (x, y): the origin is the top-left corner,
/// x grows rightward and y grows downward.
#[derive(Clone, Copy, PartialEq, Eq, Structural, Debug)]
pub struct Point(pub isize, pub isize);

/// An image: a `width` by `height` grid of pixels stored as a flat
/// row-major buffer, three bytes (red, green, blue) per pixel.
pub struct PPM {
    pub width: usize,
    pub height: usize,
    pub image: Vec<u8>,
}

/// Index of the first channel byte of pixel (x, y) in a row-major
/// RGB buffer of the given width.
pub open spec fn pix_idx(width: int, x: int, y: int) -> int {
    (x + y * width) * 3
}

/// The three channel bytes (red, green, blue) of pixel (x, y).
pub open spec fn pixel_at(s: Seq<u8>, width: int, x: int, y: int) -> (u8, u8, u8) {
    (s[pix_idx(width, x, y)], s[pix_idx(width, x, y) + 1], s[pix_idx(width, x, y) + 2])
}

/// The buffer after overwriting the three channel bytes of pixel (x, y)
/// with colour `c`.
pub open spec fn write_pixel(s: Seq<u8>, width: int, x: int, y: int, c: Colour) -> Seq<u8> {
    s.update(pix_idx(width, x, y), c.0)
        .update(pix_idx(width, x, y) + 1, c.1)
        .update(pix_idx(width, x, y) + 2, c.2)
}

/// The first channel byte of a pixel inside the grid lies inside the buffer,
/// with room for all three channels.
pub proof fn lemma_pix_idx_bounds(width: int, height: int, x: int, y: int)
    requires
        0 <= x < width,
        0 <= y < height,
    ensures
        0 <= pix_idx(width, x, y),
        pix_idx(width, x, y) + 2 < width * height * 3,
{
    assert(0 <= x + y * width && x + y * width <= width * height - 1) by (nonlinear_arith)
        requires
            0 <= x < width,
            0 <= y < height,
    ;
}

/// Distinct in-range pixels occupy disjoint byte triples.
pub proof fn lemma_pix_idx_distinct(width: int, x: int, y: int, x2: int, y2: int)
    requires
        0 <= x < width,
        0 <= y,
        0 <= x2 < width,
        0 <= y2,
        (x, y) != (x2, y2),
    ensures
        pix_idx(width, x, y) + 2 < pix_idx(width, x2, y2) || pix_idx(width, x2, y2) + 2 < pix_idx(
            width,
            x,
            y,
        ),
{
    assert(x + y * width != x2 + y2 * width) by (nonlinear_arith)
        requires
            0 <= x < width,
            0 <= y,
            0 <= x2 < width,
            0 <= y2,
            (x, y) != (x2, y2),
    ;
}

/// Writing a colour to one pixel gives exactly that pixel the colour's three
/// channel bytes, and the bytes of every other pixel are unchanged.
pub proof fn lemma_write_pixel(
    s: Seq<u8>,
    width: int,
    height: int,
    x: int,
    y: int,
    c: Colour,
    x2: int,
    y2: int,
)
    requires
        s.len() == width * height * 3,
        0 <= x < width,
        0 <= y < height,
        0 <= x2 < width,
        0 <= y2 < height,
    ensures
        pixel_at(write_pixel(s, width, x, y, c), width, x, y) == (c.0, c.1, c.2),
        (x2, y2) != (x, y) ==> pixel_at(write_pixel(s, width, x, y, c), width, x2, y2) == pixel_at(
            s,
            width,
            x2,
            y2,
        ),
{
    lemma_pix_idx_bounds(width, height, x, y);
    if (x2, y2) != (x, y) {
        lemma_pix_idx_bounds(width, height, x2, y2);
        lemma_pix_idx_distinct(width, x, y, x2, y2);
    }
}

impl PPM {
    /// The buffer holds exactly three bytes for each of the
    /// `width * height` pixels.
    pub open spec fn wf(self) -> bool {
        self.image@.len() == self.width * self.height * 3
    }

    /// (x, y) lies inside the pixel grid.
    pub open spec fn in_bounds(self, x: int, y: int) -> bool {
        0 <= x < self.width && 0 <= y < self.height
    }

    /// A fresh canvas of the given dimensions, every pixel black.
    pub fn new(width: usize, height: usize) -> (r: PPM)
        requires
            width * height * 3 <= usize::MAX,
        ensures
            r.wf(),
            r.width == width,
            r.height == height,
            forall|i: int| 0 <= i < r.image@.len() ==> r.image@[i] == 0u8,
    {
        proof {
            assert(width * height <= width * height * 3) by (nonlinear_arith);
        }
        let n: usize = width * height * 3;
        let mut image: Vec<u8> = Vec::new();
        while image.len() < n
            invariant
                image@.len() <= n,
                forall|i: int| 0 <= i < image@.len() ==> image@[i] == 0u8,
            decreases n - image@.len(),
        {
            image.push(0u8);
        }
        PPM { width, height, image }
    }

    /// Overwrite the three channel bytes of the pixel at `point` with
    /// `colour`. The coordinate must lie inside the grid: there is no
    /// bounds check at run time beyond what the contract demands.
    pub fn set_pixel_unchecked(&mut self, point: &Point, colour: &Colour)
        requires
            old(self).wf(),
            old(self).in_bounds(point.0 as int, point.1 as int),
        ensures
            final(self).wf(),
            final(self).width == old(self).width,
            final(self).height == old(self).height,
            final(self).image@ == write_pixel(
                old(self).image@,
                old(self).width as int,
                point.0 as int,
                point.1 as int,
                *colour,
            ),
    {
        let n_bytes = self.image.len();  // the buffer length fits a machine word, bounding the index arithmetic
        proof {
            lemma_pix_idx_bounds(
                self.width as int,
                self.height as int,
                point.0 as int,
                point.1 as int,
            );
        }
        let x = point.0 as usize;
        let y = point.1 as usize;
        let index = (x + y * self.width) * 3;
        self.image[index] = colour.0;
        self.image[index + 1] = colour.1;
        self.image[index + 2] = colour.2;
    }

    /// Checked write: paint the pixel when the coordinate lies inside the
    /// grid and report whether anything was written. Never writes out of
    /// range and never clamps or wraps a coordinate.
    pub fn set_pixel(&mut self, point: &Point, colour: &Colour) -> (hit: bool)
        requires
            old(self).wf(),
        ensures
            final(self).wf(),
            final(self).width == old(self).width,
            final(self).height == old(self).height,
            hit == old(self).in_bounds(point.0 as int, point.1 as int),
            hit ==> final(self).image@ == write_pixel(
                old(self).image@,
                old(self).width as int,
                point.0 as int,
                point.1 as int,
                *colour,
            ),
            !hit ==> final(self).image@ == old(self).image@,
    {
        if point.0 >= 0 && point.1 >= 0 && (point.0 as usize) < self.width && (point.1 as usize)
            < self.height {
            self.set_pixel_unchecked(point, colour);
            true
        } else {
            false
        }
    }

    /// Read back the three channel bytes of the pixel at `point`.
    pub fn get_pixel(&self, point: &Point) -> (c: Colour)
        requires
            self.wf(),
            self.in_bounds(point.0 as int, point.1 as int),
        ensures
            (c.0, c.1, c.2) == pixel_at(
                self.image@,
                self.width as int,
                point.0 as int,
                point.1 as int,
            ),
    {
        let n_bytes = self.image.len();  // the buffer length fits a machine word, bounding the index arithmetic
        proof {
            lemma_pix_idx_bounds(
                self.width as int,
                self.height as int,
                point.0 as int,
                point.1 as int,
            );
        }
        let x = point.0 as usize;
        let y = point.1 as usize;
        let index = (x + y * self.width) * 3;
        Colour(self.image[index], self.image[index + 1], self.image[index + 2])
    }
}

} // verus!

//! The image buffer that a render fills, and the sinks that take it.

use vstd::prelude::*;

pub mod ppm;

pub use ppm::PPM;

verus! {

/// A sink for a finished image. Implementations decide where the pixels go
/// (a file, a window, a socket), so nothing is promised of `draw` here.
pub trait Renderer {
    fn draw(self, image: Image);
}

/// An 8-bit RGB colour.
#[derive(Clone, Copy, Debug, PartialEq, Eq, Structural)]
pub struct Color {
    pub r: u8,
    pub g: u8,
    pub b: u8,
}

/// A rectangular buffer of colours, stored row by row.
///
/// Its view is the sequence of rows, top row first, so that the pixel in
/// column `x` of row `y` is `image@[y][x]`.
pub struct Image {
    pixels: Vec<Vec<Color>>,
    width: usize,
    height: usize,
}

impl Color {
    pub fn new(r: u8, g: u8, b: u8) -> (c: Self)
        ensures
            c == (Color { r, g, b }),
    {
        Color { r, g, b }
    }

    /// The colour every fresh image is filled with.
    pub open spec fn black() -> Color {
        Color { r: 0, g: 0, b: 0 }
    }
}

/// A position in an image. The first index is the `y` coordinate (the row),
/// the second is `x` (the column).
#[derive(Debug, Clone, Copy)]
pub struct Idx2D(pub usize, pub usize);

impl View for Image {
    type V = Seq<Seq<Color>>;

    closed spec fn view(&self) -> Seq<Seq<Color>> {
        Seq::new(self.pixels@.len(), |y: int| self.pixels@[y]@)
    }
}

impl Clone for Image {
    /// A second buffer of the same size that holds the same pixels.
    fn clone(&self) -> (copy: Self)
        ensures
            copy@ == self@,
            copy.spec_width() == self.spec_width(),
            copy.spec_height() == self.spec_height(),
    {
        let mut pixels: Vec<Vec<Color>> = Vec::new();
        let mut y: usize = 0;
        while y < self.pixels.len()
            invariant
                y <= self.pixels@.len(),
                pixels@.len() == y,
                forall|k: int| 0 <= k < y ==> (#[trigger] pixels@[k])@ == self.pixels@[k]@,
            decreases self.pixels@.len() - y,
        {
            let row = self.pixels[y].clone();
            assert(row@ =~= self.pixels@[y as int]@);
            pixels.push(row);
            y += 1;
        }
        let copy = Image { pixels, width: self.width, height: self.height };
        assert(copy@ =~= self@);
        copy
    }
}

impl Image {
    /// Number of columns.
    pub closed spec fn spec_width(&self) -> usize {
        self.width
    }

    /// Number of rows.
    pub closed spec fn spec_height(&self) -> usize {
        self.height
    }

    /// The buffer is a full rectangle: `height` rows of `width` pixels each.
    pub open spec fn wf(&self) -> bool {
        &&& self@.len() == self.spec_height()
        &&& forall|y: int| 0 <= y < self@.len() ==> (#[trigger] self@[y]).len() == self.spec_width()
    }

    /// `(x, y)` names a pixel of this image.
    pub open spec fn contains(&self, x: int, y: int) -> bool {
        0 <= x < self.spec_width() && 0 <= y < self.spec_height()
    }

    /// Creates a black image with the specified width and height
    pub fn new(width: usize, height: usize) -> (img: Self)
        ensures
            img.wf(),
            img.spec_width() == width,
            img.spec_height() == height,
            forall|x: int, y: int| img.contains(x, y) ==> #[trigger] img@[y][x] == Color::black(),
    {
        let img = Image { width, height, pixels: vec![vec![Color::new(0, 0, 0); width]; height] };
        img
    }

    #[verifier::when_used_as_spec(spec_width)]
    pub fn width(&self) -> (w: usize)
        ensures
            w == self.spec_width(),
    {
        self.width
    }

    #[verifier::when_used_as_spec(spec_height)]
    pub fn height(&self) -> (h: usize)
        ensures
            h == self.spec_height(),
    {
        self.height
    }

    pub fn set_pixel(&mut self, x: usize, y: usize, c: Color)
        requires
            old(self).wf(),
            old(self).contains(x as int, y as int),
        ensures
            final(self).wf(),
            final(self).spec_width() == old(self).spec_width(),
            final(self).spec_height() == old(self).spec_height(),
            final(self)@ == old(self)@.update(y as int, old(self)@[y as int].update(x as int, c)),
    {
        assert(old(self)@[y as int].len() == old(self).spec_width());
        self.pixels[y][x] = c;
        assert(self@ =~= old(self)@.update(y as int, old(self)@[y as int].update(x as int, c)));
    }

    pub fn get_pixel(&self, x: usize, y: usize) -> (c: &Color)
        requires
            self.wf(),
            self.contains(x as int, y as int),
        ensures
            *c == self@[y as int][x as int],
    {
        assert(self@[y as int].len() == self.spec_width());
        &self.pixels[y][x]
    }

    /// `(i, j)` lies in the rectangle whose upper-left corner is `(x, y)` and
    /// whose size is `width` by `height`.
    pub open spec fn in_rect(i: int, j: int, x: int, y: int, width: int, height: int) -> bool {
        x <= i < x + width && y <= j < y + height
    }

    /// Fills rectangle with the upper-left corner at `(x,y)` and with the provided width
    /// and height.
    ///
    /// The rectangle has to end strictly before the right and the bottom edge
    /// of the image. Every pixel outside it keeps its colour.
    pub fn fill_rect(&mut self, x: usize, y: usize, width: usize, height: usize, color: Color)
        requires
            old(self).wf(),
            x + width < old(self).spec_width(),
            y + height < old(self).spec_height(),
        ensures
            final(self).wf(),
            final(self).spec_width() == old(self).spec_width(),
            final(self).spec_height() == old(self).spec_height(),
            forall|i: int, j: int|
                final(self).contains(i, j) ==> #[trigger] final(self)@[j][i] == (if Self::in_rect(
                    i,
                    j,
                    x as int,
                    y as int,
                    width as int,
                    height as int,
                ) {
                    color
                } else {
                    old(self)@[j][i]
                }),
    {
        let ghost before = self@;
        let mut j: usize = y;
        while j < y + height
            invariant
                self.wf(),
                self.spec_width() == old(self).spec_width(),
                self.spec_height() == old(self).spec_height(),
                before == old(self)@,
                x + width < self.spec_width(),
                y + height < self.spec_height(),
                y <= j <= y + height,
                forall|i: int, k: int|
                    self.contains(i, k) ==> #[trigger] self@[k][i] == (if Self::in_rect(
                        i,
                        k,
                        x as int,
                        y as int,
                        width as int,
                        j - y,
                    ) {
                        color
                    } else {
                        before[k][i]
                    }),
            decreases y + height - j,
        {
            let mut i: usize = x;
            while i < x + width
                invariant
                    self.wf(),
                    self.spec_width() == old(self).spec_width(),
                    self.spec_height() == old(self).spec_height(),
                    x + width < self.spec_width(),
                    y + height < self.spec_height(),
                    y <= j < y + height,
                    x <= i <= x + width,
                    forall|c: int, k: int|
                        self.contains(c, k) ==> #[trigger] self@[k][c] == (if Self::in_rect(
                            c,
                            k,
                            x as int,
                            y as int,
                            width as int,
                            j - y,
                        ) || (k == j && x <= c < i) {
                            color
                        } else {
                            before[k][c]
                        }),
                decreases x + width - i,
            {
                self.set_pixel(i, j, color);
                i += 1;
            }
            j += 1;
        }
    }

    /// Computes every pixel of the image with `shade`, which is called once
    /// for each position `(x, y)`, row by row from the top, and overwrites the
    /// pixel with what it returned.
    pub fn fill_with<F: Fn(usize, usize) -> Color>(&mut self, shade: F)
        requires
            old(self).wf(),
            forall|x: usize, y: usize|
                old(self).contains(x as int, y as int) ==> #[trigger] call_requires(shade, (x, y)),
        ensures
            final(self).wf(),
            final(self).spec_width() == old(self).spec_width(),
            final(self).spec_height() == old(self).spec_height(),
            forall|x: usize, y: usize|
                final(self).contains(x as int, y as int) ==> call_ensures(
                    shade,
                    (x, y),
                    #[trigger] final(self)@[y as int][x as int],
                ),
    {
        let mut y: usize = 0;
        while y < self.height
            invariant
                self.wf(),
                self.spec_width() == old(self).spec_width(),
                self.spec_height() == old(self).spec_height(),
                y <= self.spec_height(),
                forall|x: usize, y: usize|
                    old(self).contains(x as int, y as int) ==> #[trigger] call_requires(
                        shade,
                        (x, y),
                    ),
                forall|c: usize, k: usize|
                    self.contains(c as int, k as int) && k < y ==> call_ensures(
                        shade,
                        (c, k),
                        #[trigger] self@[k as int][c as int],
                    ),
            decreases self.spec_height() - y,
        {
            let mut x: usize = 0;
            while x < self.width
                invariant
                    self.wf(),
                    self.spec_width() == old(self).spec_width(),
                    self.spec_height() == old(self).spec_height(),
                    y < self.spec_height(),
                    x <= self.spec_width(),
                    forall|x: usize, y: usize|
                        old(self).contains(x as int, y as int) ==> #[trigger] call_requires(
                            shade,
                            (x, y),
                        ),
                    forall|c: usize, k: usize|
                        self.contains(c as int, k as int) && (k < y || (k == y && c < x))
                            ==> call_ensures(shade, (c, k), #[trigger] self@[k as int][c as int]),
                decreases self.spec_width() - x,
            {
                let color = shade(x, y);
                self.set_pixel(x, y, color);
                x += 1;
            }
            y += 1;
        }
    }
}

} // verus!

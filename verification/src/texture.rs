//! Image data laid out row by row.
use vstd::prelude::*;

verus! {

/// `c` wrapped into `0..n`, as Euclidean remainder.
pub fn wrap_index(c: i64, n: usize) -> (r: usize)
    requires
        0 < n,
    ensures
        r as int == c as int % n as int,
        r < n,
{
    if c >= 0 {
        ((c as u64) % (n as u64)) as usize
    } else {
        let a: u64 = (-(c + 1)) as u64;
        let q: u64 = a % (n as u64);
        proof {
            let ni = n as int;
            let ai = a as int;
            let qi = q as int;
            assert(ai == (ai / ni) * ni + qi) by (nonlinear_arith)
                requires
                    qi == ai % ni,
                    ni > 0,
            ;
            assert(c as int == -(ai / ni + 1) * ni + (ni - 1 - qi)) by (nonlinear_arith)
                requires
                    ai == (ai / ni) * ni + qi,
                    c as int == -ai - 1,
            ;
            vstd::arithmetic::div_mod::lemma_fundamental_div_mod_converse(
                c as int,
                ni,
                -(ai / ni + 1),
                ni - 1 - qi,
            );
        }
        (n - 1) - q as usize
    }
}

/// Linearized image data.
pub struct Texture<T> {
    width: usize,
    height: usize,
    data: Vec<T>,
}

impl<T> Texture<T> {
    pub closed spec fn spec_width(&self) -> nat {
        self.width as nat
    }

    pub closed spec fn spec_height(&self) -> nat {
        self.height as nat
    }

    /// The pixels, row after row.
    pub closed spec fn pixels(&self) -> Seq<T> {
        self.data@
    }

    /// The pixel in column `x` of row `y`.
    pub open spec fn pixel(&self, x: int, y: int) -> T {
        self.pixels()[x + y * self.spec_width()]
    }

    /// Every pixel of every row is there.
    pub closed spec fn wf(&self) -> bool {
        self.data@.len() == self.width * self.height
    }

    /// An image of `width` columns and `height` rows, with the pixels of each row
    /// after those of the row before.
    pub fn new(width: usize, height: usize, data: Vec<T>) -> (t: Texture<T>)
        requires
            data@.len() == width * height,
        ensures
            t.wf(),
            t.spec_width() == width,
            t.spec_height() == height,
            t.pixels() == data@,
    {
        Texture { width, height, data }
    }

    pub fn width(&self) -> (w: usize)
        ensures
            w == self.spec_width(),
    {
        self.width
    }

    pub fn height(&self) -> (h: usize)
        ensures
            h == self.spec_height(),
    {
        self.height
    }

    /// The pixel at index `x + y * width`.
    pub fn color_at(&self, x: usize, y: usize) -> (c: T) where T: Copy
        requires
            x + y * self.spec_width() < self.pixels().len(),
        ensures
            c == self.pixel(x as int, y as int),
    {
        let _n = self.data.len();
        proof {
            assert(0 <= y * self.width) by (nonlinear_arith);
        }
        self.data[x + y * self.width]
    }

    /// The four by four pixels around column `x` and row `y`, from one column and row
    /// before to two after, wrapping around the edges of the image. Row `i` of the result
    /// holds the pixels of image row `y - 1 + i`.
    pub fn neighbourhood(&self, x: i64, y: i64) -> (points: [[T; 4]; 4]) where T: Copy
        requires
            self.wf(),
            self.spec_width() > 0,
            self.spec_height() > 0,
            i64::MIN < x < i64::MAX - 1,
            i64::MIN < y < i64::MAX - 1,
        ensures
            forall|i: int, j: int|
                0 <= i < 4 && 0 <= j < 4 ==> #[trigger] points@[i]@[j] == self.pixel(
                    (x + j - 1) % (self.spec_width() as int),
                    (y + i - 1) % (self.spec_height() as int),
                ),
    {
        let x1 = wrap_index(x - 1, self.width);
        let x2 = wrap_index(x, self.width);
        let x3 = wrap_index(x + 1, self.width);
        let x4 = wrap_index(x + 2, self.width);
        let y1 = wrap_index(y - 1, self.height);
        let y2 = wrap_index(y, self.height);
        let y3 = wrap_index(y + 1, self.height);
        let y4 = wrap_index(y + 2, self.height);
        proof {
            lemma_in_image(self.width as int, self.height as int, x1 as int, y1 as int);
            lemma_in_image(self.width as int, self.height as int, x2 as int, y1 as int);
            lemma_in_image(self.width as int, self.height as int, x3 as int, y1 as int);
            lemma_in_image(self.width as int, self.height as int, x4 as int, y1 as int);
            lemma_in_image(self.width as int, self.height as int, x1 as int, y2 as int);
            lemma_in_image(self.width as int, self.height as int, x2 as int, y2 as int);
            lemma_in_image(self.width as int, self.height as int, x3 as int, y2 as int);
            lemma_in_image(self.width as int, self.height as int, x4 as int, y2 as int);
            lemma_in_image(self.width as int, self.height as int, x1 as int, y3 as int);
            lemma_in_image(self.width as int, self.height as int, x2 as int, y3 as int);
            lemma_in_image(self.width as int, self.height as int, x3 as int, y3 as int);
            lemma_in_image(self.width as int, self.height as int, x4 as int, y3 as int);
            lemma_in_image(self.width as int, self.height as int, x1 as int, y4 as int);
            lemma_in_image(self.width as int, self.height as int, x2 as int, y4 as int);
            lemma_in_image(self.width as int, self.height as int, x3 as int, y4 as int);
            lemma_in_image(self.width as int, self.height as int, x4 as int, y4 as int);
        }
        let points = [
            [
                self.color_at(x1, y1),
                self.color_at(x2, y1),
                self.color_at(x3, y1),
                self.color_at(x4, y1),
            ],
            [
                self.color_at(x1, y2),
                self.color_at(x2, y2),
                self.color_at(x3, y2),
                self.color_at(x4, y2),
            ],
            [
                self.color_at(x1, y3),
                self.color_at(x2, y3),
                self.color_at(x3, y3),
                self.color_at(x4, y3),
            ],
            [
                self.color_at(x1, y4),
                self.color_at(x2, y4),
                self.color_at(x3, y4),
                self.color_at(x4, y4),
            ],
        ];
        points
    }
}

/// A column and row inside the image address a pixel inside its data.
proof fn lemma_in_image(w: int, h: int, x: int, y: int)
    requires
        0 <= x < w,
        0 <= y < h,
    ensures
        x + y * w < w * h,
{
    assert(x + y * w < w * h) by (nonlinear_arith)
        requires
            0 <= x < w,
            0 <= y < h,
    ;
}

} // verus!

//! A two-dimensional array stored row-major in one flat vector.

use vstd::prelude::*;

verus! {

/// `width * height` values of type `T`, row-major: the cell `(x, y)` lives
/// at index `y * width + x`.
#[derive(Debug, Clone, PartialEq, Eq)]
pub struct Vec2d<T> {
    width: usize,
    height: usize,
    data: Vec<T>,
}

impl<T> Vec2d<T> {
    pub closed spec fn width_spec(self) -> nat {
        self.width as nat
    }

    pub closed spec fn height_spec(self) -> nat {
        self.height as nat
    }

    /// The cells, row-major.
    pub closed spec fn data_seq(self) -> Seq<T> {
        self.data@
    }

    pub open spec fn wf(self) -> bool {
        self.data_seq().len() == self.width_spec() * self.height_spec()
    }

    /// The cell at `(x, y)`.
    pub open spec fn cell(self, x: int, y: int) -> T {
        self.data_seq()[y * self.width_spec() + x]
    }

    /// Takes ownership of a row-major vector of `width * height` cells.
    pub fn from_raw(width: usize, height: usize, data: Vec<T>) -> (r: Vec2d<T>)
        requires
            data@.len() == width * height,
        ensures
            r.wf(),
            r.width_spec() == width,
            r.height_spec() == height,
            r.data_seq() == data@,
    {
        Vec2d { width, height, data }
    }

    /// Gives the row-major cells back.
    pub fn into_raw(self) -> (r: Vec<T>)
        ensures
            r@ == self.data_seq(),
    {
        self.data
    }

    pub fn width(&self) -> (r: usize)
        ensures
            r == self.width_spec(),
    {
        self.width
    }

    pub fn height(&self) -> (r: usize)
        ensures
            r == self.height_spec(),
    {
        self.height
    }

    /// A grid of `width * height` copies of `init`.
    pub fn new(width: usize, height: usize, init: T) -> (r: Vec2d<T>) where T: Copy
        requires
            width * height <= usize::MAX,
        ensures
            r.wf(),
            r.width_spec() == width,
            r.height_spec() == height,
            forall|i: int| 0 <= i < r.data_seq().len() ==> r.data_seq()[i] == init,
    {
        let total = width * height;
        let mut data: Vec<T> = Vec::new();
        let mut i: usize = 0;
        while i < total
            invariant
                0 <= i <= total,
                data@.len() == i,
                forall|k: int| 0 <= k < i ==> data@[k] == init,
            decreases total - i,
        {
            data.push(init);
            i = i + 1;
        }
        Vec2d { width, height, data }
    }

    /// A grid whose cell `(x, y)` holds `f(x, y)`.
    pub fn from_fn<F: Fn(usize, usize) -> T>(width: usize, height: usize, f: F) -> (r: Vec2d<T>)
        requires
            width * height <= usize::MAX,
            forall|x: usize, y: usize| x < width && y < height ==> #[trigger] f.requires((x, y)),
        ensures
            r.wf(),
            r.width_spec() == width,
            r.height_spec() == height,
            forall|i: int|
                0 <= i < r.data_seq().len() ==> f.ensures(
                    (((i % (width as int)) as usize), ((i / (width as int)) as usize)),
                    #[trigger] r.data_seq()[i],
                ),
    {
        let total = width * height;
        let mut data: Vec<T> = Vec::new();
        let mut y: usize = 0;
        while y < height
            invariant
                0 <= y <= height,
                width * height <= usize::MAX,
                data@.len() == y * width,
                forall|x2: usize, y2: usize|
                    x2 < width && y2 < height ==> #[trigger] f.requires((x2, y2)),
                forall|i: int|
                    0 <= i < data@.len() ==> f.ensures(
                        (((i % (width as int)) as usize), ((i / (width as int)) as usize)),
                        #[trigger] data@[i],
                    ),
            decreases height - y,
        {
            let mut x: usize = 0;
            while x < width
                invariant
                    0 <= y < height,
                    0 <= x <= width,
                    width * height <= usize::MAX,
                    data@.len() == y * width + x,
                    forall|x2: usize, y2: usize|
                        x2 < width && y2 < height ==> #[trigger] f.requires((x2, y2)),
                    forall|i: int|
                        0 <= i < data@.len() ==> f.ensures(
                            (((i % (width as int)) as usize), ((i / (width as int)) as usize)),
                            #[trigger] data@[i],
                        ),
                decreases width - x,
            {
                proof {
                    lemma_row_major_index(x as int, y as int, width as int, height as int);
                    assert((y * width + x) % (width as int) == x && (y * width + x) / (
                    width as int) == y) by (nonlinear_arith)
                        requires
                            0 <= x < width,
                            0 <= y,
                    ;
                }
                let v = f(x, y);
                data.push(v);
                x = x + 1;
            }
            proof {
                assert((y + 1) * width == y * width + width) by (nonlinear_arith);
            }
            y = y + 1;
        }
        proof {
            assert(height * width == width * height) by (nonlinear_arith);
        }
        Vec2d { width, height, data }
    }

    /// The cell at `(x, y)`.
    pub fn get(&self, x: usize, y: usize) -> (r: &T)
        requires
            self.wf(),
            x < self.width_spec(),
            y < self.height_spec(),
        ensures
            *r == self.cell(x as int, y as int),
    {
        let n = self.data.len();
        proof {
            lemma_row_major_index(
                x as int,
                y as int,
                self.width_spec() as int,
                self.height_spec() as int,
            );
            assert(y * self.width + x < n);
        }
        &self.data[y * self.width + x]
    }

    /// Replaces the cell at `(x, y)`.
    pub fn set(&mut self, x: usize, y: usize, value: T)
        requires
            old(self).wf(),
            x < old(self).width_spec(),
            y < old(self).height_spec(),
        ensures
            final(self).wf(),
            final(self).width_spec() == old(self).width_spec(),
            final(self).height_spec() == old(self).height_spec(),
            final(self).data_seq() == old(self).data_seq().update(
                y * old(self).width_spec() + x,
                value,
            ),
    {
        let n = self.data.len();
        proof {
            lemma_row_major_index(
                x as int,
                y as int,
                self.width_spec() as int,
                self.height_spec() as int,
            );
            assert(y * self.width + x < n);
        }
        let i = y * self.width + x;
        self.data.set(i, value);
    }

    /// The row `y`, as a slice of `width` cells.
    pub fn row(&self, y: usize) -> (r: &[T])
        requires
            self.wf(),
            y < self.height_spec(),
        ensures
            r@ =~= self.data_seq().subrange(
                y * self.width_spec() as int,
                (y + 1) * self.width_spec() as int,
            ),
    {
        let n = self.data.len();
        proof {
            lemma_row_bounds(y as int, self.width_spec() as int, self.height_spec() as int);
            assert((y + 1) * self.width <= n);
        }
        let lo = y * self.width;
        let hi = (y + 1) * self.width;
        &self.data[lo..hi]
    }

    /// Every row, in order.
    pub fn rows(&self) -> (r: Vec<&[T]>)
        requires
            self.wf(),
        ensures
            r@.len() == self.height_spec(),
            forall|y: int|
                0 <= y < self.height_spec() ==> (#[trigger] r@[y])@ =~= self.data_seq().subrange(
                    y * self.width_spec() as int,
                    (y + 1) * self.width_spec() as int,
                ),
    {
        let mut r: Vec<&[T]> = Vec::new();
        let mut y: usize = 0;
        while y < self.height
            invariant
                self.wf(),
                0 <= y <= self.height_spec(),
                r@.len() == y,
                forall|k: int|
                    0 <= k < y ==> (#[trigger] r@[k])@ =~= self.data_seq().subrange(
                        k * self.width_spec() as int,
                        (k + 1) * self.width_spec() as int,
                    ),
            decreases self.height_spec() - y,
        {
            let row = self.row(y);
            r.push(row);
            y = y + 1;
        }
        r
    }
}

proof fn lemma_row_major_index(x: int, y: int, w: int, h: int)
    requires
        0 <= x < w,
        0 <= y < h,
    ensures
        0 <= y * w + x < w * h,
{
    assert(0 <= y * w + x < w * h) by (nonlinear_arith)
        requires
            0 <= x < w,
            0 <= y < h,
    ;
}

proof fn lemma_row_bounds(y: int, w: int, h: int)
    requires
        0 <= y < h,
        w >= 0,
    ensures
        0 <= y * w <= (y + 1) * w <= w * h,
{
    assert(0 <= y * w <= (y + 1) * w <= w * h) by (nonlinear_arith)
        requires
            0 <= y < h,
            w >= 0,
    ;
}

} // verus!

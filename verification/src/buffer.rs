//! A rectangular pixel buffer stored row by row.
use vstd::prelude::*;

verus! {

/// A pixel of four channels of one byte each.
#[derive(Copy, Clone, Debug, PartialEq, Eq)]
pub struct Color {
    pub r: u8,
    pub g: u8,
    pub b: u8,
    pub a: u8,
}

/// A rectangle of pixels: `size[0]` columns and `size[1]` rows, stored in
/// `data` row by row, the row `y == 0` first.
#[derive(Clone, Debug)]
pub struct Buffer<T> {
    pub size: [usize; 2],
    pub data: Vec<T>,
}

/// An index into row-major storage determines its column and row.
pub proof fn lemma_index_unique(w: int, x: int, y: int, u: int, v: int)
    by (nonlinear_arith)
    requires
        0 <= x < w,
        0 <= u < w,
        0 <= y,
        0 <= v,
        y * w + x == v * w + u,
    ensures
        x == u,
        y == v,
{
}

/// An index of a pixel of the buffer lies within its storage.
pub proof fn lemma_index_in_range(w: int, h: int, x: int, y: int)
    by (nonlinear_arith)
    requires
        0 <= x < w,
        0 <= y < h,
    ensures
        0 <= y * w <= y * w + x < w * h,
        y * w + w <= w * h,
{
}

impl<T: Copy> Buffer<T> {
    /// The storage holds one pixel for each column of each row.
    pub open spec fn wf(&self) -> bool {
        self.data@.len() == self.size[0] * self.size[1]
    }

    /// Whether `(x, y)` is a pixel of the buffer.
    pub open spec fn holds(&self, x: int, y: int) -> bool {
        0 <= x < self.size[0] && 0 <= y < self.size[1]
    }

    /// The pixel in column `x` of row `y`.
    pub open spec fn at(&self, x: int, y: int) -> T {
        self.data@[y * self.size[0] + x]
    }

    /// A buffer of `width` columns and `height` rows with every pixel `fill`,
    /// or `None` where the number of pixels does not fit in `usize`.
    pub fn new(width: usize, height: usize, fill: T) -> (res: Option<Self>)
        ensures
            res.is_some() <==> width * height <= usize::MAX,
            res matches Some(buf) ==> {
                &&& buf.wf()
                &&& buf.size[0] == width
                &&& buf.size[1] == height
                &&& forall|x: int, y: int| buf.holds(x, y) ==> #[trigger] buf.at(x, y) == fill
            },
    {
        let len = match width.checked_mul(height) {
            Some(len) => len,
            None => return None,
        };
        let mut data: Vec<T> = Vec::new();
        let mut i: usize = 0;
        while i < len
            invariant
                0 <= i <= len,
                data@.len() == i,
                forall|k: int| 0 <= k < i ==> data@[k] == fill,
            decreases len - i,
        {
            data.push(fill);
            i += 1;
        }
        let buf = Buffer { size: [width, height], data };
        proof {
            assert forall|x: int, y: int| buf.holds(x, y) implies #[trigger] buf.at(x, y)
                == fill by {
                lemma_index_in_range(width as int, height as int, x, y);
            }
        }
        Some(buf)
    }

    /// The pixel in column `x` of row `y`.
    pub fn get(&self, x: usize, y: usize) -> (c: T)
        requires
            self.wf(),
            self.holds(x as int, y as int),
        ensures
            c == self.at(x as int, y as int),
    {
        let w = self.size[0];
        let ghost len = self.data.len();
        proof {
            lemma_index_in_range(w as int, self.size[1] as int, x as int, y as int);
        }
        self.data[y * w + x]
    }

    /// Gives the pixel in column `x` of row `y` the value `c`.
    pub fn set(&mut self, x: usize, y: usize, c: T)
        requires
            old(self).wf(),
            old(self).holds(x as int, y as int),
        ensures
            final(self).wf(),
            final(self).size == old(self).size,
            final(self).data@ == old(self).data@.update(y * old(self).size[0] + x, c),
            forall|u: int, v: int|
                old(self).holds(u, v) ==> #[trigger] final(self).at(u, v) == (if u == x && v == y {
                    c
                } else {
                    old(self).at(u, v)
                }),
    {
        let w = self.size[0];
        let ghost len = self.data.len();
        proof {
            lemma_index_in_range(w as int, self.size[1] as int, x as int, y as int);
        }
        self.data.set(y * w + x, c);
        proof {
            assert forall|u: int, v: int| old(self).holds(u, v) implies #[trigger] self.at(u, v)
                == (if u == x && v == y {
                c
            } else {
                old(self).at(u, v)
            }) by {
                lemma_index_in_range(w as int, self.size[1] as int, u, v);
                if y * w + x == v * w + u {
                    lemma_index_unique(w as int, x as int, y as int, u, v);
                }
            }
        }
    }

    /// Gives every pixel of row `y` from column `x0` to column `x1`, both
    /// included, the value `c`.
    pub fn fill_run(&mut self, y: usize, x0: usize, x1: usize, c: T)
        requires
            old(self).wf(),
            x0 <= x1,
            old(self).holds(x1 as int, y as int),
        ensures
            final(self).wf(),
            final(self).size == old(self).size,
            forall|u: int, v: int|
                old(self).holds(u, v) ==> #[trigger] final(self).at(u, v) == (if v == y && x0 <= u
                    <= x1 {
                    c
                } else {
                    old(self).at(u, v)
                }),
    {
        let w = self.size[0];
        let ghost len = self.data.len();
        proof {
            lemma_index_in_range(w as int, self.size[1] as int, x1 as int, y as int);
        }
        let start = y * w;
        let mut x = x0;
        while x <= x1
            invariant
                x0 <= x <= x1 + 1,
                x1 < w,
                w == self.size[0],
                start == y * w,
                start + x1 < self.data@.len() <= usize::MAX,
                self.wf(),
                self.size == old(self).size,
                self.data@.len() == old(self).data@.len(),
                old(self).holds(x1 as int, y as int),
                forall|k: int|
                    0 <= k < self.data@.len() ==> self.data@[k] == (if start + x0 <= k < start + x {
                        c
                    } else {
                        old(self).data@[k]
                    }),
            decreases x1 + 1 - x,
        {
            self.data.set(start + x, c);
            x += 1;
        }
        proof {
            assert forall|u: int, v: int| old(self).holds(u, v) implies #[trigger] self.at(u, v)
                == (if v == y && x0 <= u <= x1 {
                c
            } else {
                old(self).at(u, v)
            }) by {
                lemma_index_in_range(w as int, self.size[1] as int, u, v);
                let k = v * w + u;
                if start + x0 <= k < start + x1 + 1 {
                    lemma_index_unique(w as int, k - start, y as int, u, v);
                }
            }
        }
    }
}

} // verus!

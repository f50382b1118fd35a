use vstd::prelude::*;

use crate::ring::Ring;
use crate::sum::{
    lemma_add_cancel, lemma_add_right_comm, lemma_distrib_right, lemma_lin_affine, lemma_lin_ext, lemma_lin_ext_products, lemma_lin_zero_right, lemma_lin_scale,
    lemma_lin_unit_left, lemma_lin_unit_right, lemma_lin_update, lemma_mul_cancel, lemma_mul_neg,
    lemma_neg_zero, lin,
};

verus! {

/// The element of a row-major sequence with rows of length `w`.
pub open spec fn cell<A>(s: Seq<A>, w: int, y: int, x: int) -> A {
    s[y * w + x]
}

/// Row-major positions of a `h` by `w` grid fall inside the buffer.
pub proof fn lemma_index_in_grid(y: int, x: int, h: int, w: int)
    requires
        0 <= y < h,
        0 <= x < w,
    ensures
        0 <= y * w + x < h * w,
        y * w + x + 1 <= h * w,
{
    assert(y * w + x < h * w) by (nonlinear_arith)
        requires
            0 <= y < h,
            0 <= x < w,
    ;
    assert(0 <= y * w) by (nonlinear_arith)
        requires
            0 <= y,
            0 <= w,
    ;
}

/// Distinct positions of a grid have distinct row-major indices.
pub proof fn lemma_index_distinct(y1: int, x1: int, y2: int, x2: int, h: int, w: int)
    requires
        0 <= y1 < h,
        0 <= y2 < h,
        0 <= x1 < w,
        0 <= x2 < w,
        y1 != y2 || x1 != x2,
    ensures
        y1 * w + x1 != y2 * w + x2,
{
    if y1 < y2 {
        lemma_row_end(y1, y2, w);
    } else if y2 < y1 {
        lemma_row_end(y2, y1, w);
    }
}

/// Replacing row `n` of a `h` by `w` grid by a sequence of length `w` keeps
/// the size and changes the elements of that row only.
pub proof fn lemma_row_splice<A>(d: Seq<A>, fr: Seq<A>, n: int, h: int, w: int)
    requires
        0 <= n < h,
        0 <= w,
        d.len() == h * w,
    ensures
        fr.len() == w ==> (d.subrange(0, n * w) + fr + d.subrange((n + 1) * w, d.len() as int)).len() == h * w,
        fr.len() == w ==> forall|yy: int, xx: int|
            0 <= yy < h && 0 <= xx < w ==> #[trigger] cell(
                d.subrange(0, n * w) + fr + d.subrange((n + 1) * w, d.len() as int),
                w,
                yy,
                xx,
            ) == if yy == n {
                fr[xx]
            } else {
                cell(d, w, yy, xx)
            },
{
    lemma_row_end(n, h, w);
    if fr.len() == w {
        let fd = d.subrange(0, n * w) + fr + d.subrange((n + 1) * w, d.len() as int);
        assert forall|yy: int, xx: int| 0 <= yy < h && 0 <= xx < w implies #[trigger] cell(fd, w, yy, xx) == if yy == n {
            fr[xx]
        } else {
            cell(d, w, yy, xx)
        } by {
            lemma_index_in_grid(yy, xx, h, w);
            if yy < n {
                lemma_index_in_grid(yy, xx, n, w);
            } else if yy > n {
                lemma_row_end(n, yy, w);
            }
        }
    }
}

/// Updating one position of a `h` by `w` grid changes that element only.
pub proof fn lemma_cell_update<A>(d: Seq<A>, v: A, y: int, x: int, h: int, w: int)
    requires
        0 <= y < h,
        0 <= x < w,
        d.len() == h * w,
    ensures
        forall|yy: int, xx: int|
            0 <= yy < h && 0 <= xx < w ==> #[trigger] cell(d.update(y * w + x, v), w, yy, xx) == if yy == y && xx == x {
                v
            } else {
                cell(d, w, yy, xx)
            },
{
    assert forall|yy: int, xx: int| 0 <= yy < h && 0 <= xx < w implies #[trigger] cell(d.update(y * w + x, v), w, yy, xx)
        == if yy == y && xx == x {
        v
    } else {
        cell(d, w, yy, xx)
    } by {
        lemma_index_in_grid(yy, xx, h, w);
        lemma_index_in_grid(y, x, h, w);
        if yy != y || xx != x {
            lemma_index_distinct(yy, xx, y, x, h, w);
        }
    }
}

/// Row `y` of a grid with `h` rows of length `w` ends inside the buffer.
pub proof fn lemma_row_end(y: int, h: int, w: int)
    requires
        0 <= y < h,
        0 <= w,
    ensures
        (y + 1) * w == y * w + w,
        0 <= y * w,
        (y + 1) * w <= h * w,
{
    assert((y + 1) * w == y * w + w) by (nonlinear_arith);
    assert(0 <= y * w) by (nonlinear_arith)
        requires
            0 <= y,
            0 <= w,
    ;
    assert((y + 1) * w <= h * w) by (nonlinear_arith)
        requires
            0 <= y < h,
            0 <= w,
    ;
}

/// A dense matrix stored row-major in one flat buffer: the element in row `y`,
/// column `x` sits at index `y * width + x`. The height is kept beside the
/// width so that a matrix without columns still has its number of rows.
#[derive(Clone)]
pub struct Matrix<A> {
    height: usize,
    width: usize,
    data: Vec<A>,
}

impl<A> Matrix<A> {
    /// Number of rows.
    pub closed spec fn rows_spec(&self) -> nat {
        self.height as nat
    }

    /// Number of columns.
    pub closed spec fn cols_spec(&self) -> nat {
        self.width as nat
    }

    /// The element in row `y`, column `x`.
    pub closed spec fn at(&self, y: int, x: int) -> A {
        cell(self.data@, self.width as int, y, x)
    }

    /// The buffer holds exactly `rows * cols` elements.
    pub closed spec fn wf(&self) -> bool {
        self.data@.len() == self.height * self.width && self.height * self.width <= usize::MAX
    }

    /// Row-major contents.
    pub closed spec fn flat(&self) -> Seq<A> {
        self.data@
    }

    /// The matrix whose element `(y, x)` is `f(y, x)`; `f` is called in row-major order.
    pub fn by_pos<F: Fn(usize, usize) -> A>(height: usize, width: usize, f: F) -> (r: Matrix<A>)
        requires
            height * width <= usize::MAX,
            forall|y: usize, x: usize| y < height && x < width ==> f.requires((y, x)),
        ensures
            r.wf(),
            r.rows_spec() == height,
            r.cols_spec() == width,
            forall|y: int, x: int|
                0 <= y < height && 0 <= x < width ==> f.ensures(
                    (y as usize, x as usize),
                    #[trigger] r.at(y, x),
                ),
    {
        let mut data: Vec<A> = Vec::new();
        let mut y: usize = 0;
        while y < height
            invariant
                y <= height,
                height * width <= usize::MAX,
                data@.len() == y * width,
                forall|y: usize, x: usize| y < height && x < width ==> f.requires((y, x)),
                forall|yy: int, xx: int|
                    0 <= yy < y && 0 <= xx < width ==> f.ensures(
                        (yy as usize, xx as usize),
                        #[trigger] cell(data@, width as int, yy, xx),
                    ),
            decreases height - y,
        {
            let mut x: usize = 0;
            proof {
                lemma_row_end(y as int, height as int, width as int);
            }
            while x < width
                invariant
                    y < height,
                    x <= width,
                    height * width <= usize::MAX,
                    data@.len() == y * width + x,
                    (y + 1) * width <= height * width,
                    forall|y: usize, x: usize| y < height && x < width ==> f.requires((y, x)),
                    forall|yy: int, xx: int|
                        (0 <= yy < y && 0 <= xx < width) || (yy == y && 0 <= xx < x) ==> f.ensures(
                            (yy as usize, xx as usize),
                            #[trigger] cell(data@, width as int, yy, xx),
                        ),
                decreases width - x,
            {
                let v = f(y, x);
                let ghost prev = data@;
                data.push(v);
                proof {
                    assert forall|yy: int, xx: int|
                        (0 <= yy < y && 0 <= xx < width) || (yy == y && 0 <= xx <= x) implies f.ensures(
                            (yy as usize, xx as usize),
                            #[trigger] cell(data@, width as int, yy, xx),
                        ) by {
                        if yy == y && xx == x {
                        } else {
                            if yy < y {
                                lemma_index_in_grid(yy, xx, y as int, width as int);
                            }
                            assert(cell(data@, width as int, yy, xx) == cell(prev, width as int, yy, xx));
                        }
                    }
                }
                x = x + 1;
            }
            y = y + 1;
        }
        Matrix { height, width, data }
    }

    /// The element in row `y`, column `x`, or `None` outside the matrix.
    pub fn get(&self, y: usize, x: usize) -> (r: Option<&A>)
        requires
            self.wf(),
        ensures
            r.is_some() <==> (y < self.rows_spec() && x < self.cols_spec()),
            r.is_some() ==> *r.unwrap() == self.at(y as int, x as int),
    {
        if y >= self.height {
            return None;
        }
        if x >= self.width {
            return None;
        }
        proof {
            lemma_index_in_grid(y as int, x as int, self.height as int, self.width as int);
        }
        Some(&self.data[y * self.width + x])
    }

    /// Mutable access to the element in row `y`, column `x`, or `None` outside the matrix.
    pub fn get_mut(&mut self, y: usize, x: usize) -> (r: Option<&mut A>)
        requires
            old(self).wf(),
        ensures
            r.is_some() <==> (y < old(self).rows_spec() && x < old(self).cols_spec()),
            r.is_none() ==> *final(self) == *old(self),
            r matches Some(e) ==> {
                &&& *e == old(self).at(y as int, x as int)
                &&& final(self).rows_spec() == old(self).rows_spec()
                &&& final(self).cols_spec() == old(self).cols_spec()
                &&& final(self).wf()
                &&& final(self).flat() == old(self).flat().update(
                    y * old(self).cols_spec() + x,
                    *final(e),
                )
                &&& forall|yy: int, xx: int|
                    0 <= yy < old(self).rows_spec() && 0 <= xx < old(self).cols_spec() ==> #[trigger] final(self).at(yy, xx)
                        == if yy == y && xx == x {
                        *final(e)
                    } else {
                        old(self).at(yy, xx)
                    }
            },
    {
        if y >= self.height {
            return None;
        }
        if x >= self.width {
            return None;
        }
        proof {
            lemma_index_in_grid(y as int, x as int, self.height as int, self.width as int);
        }
        let i = y * self.width + x;
        let e = &mut self.data[i];
        proof {
            lemma_cell_update(old(self).data@, *final(e), y as int, x as int, self.height as int, self.width as int);
        }
        Some(e)
    }

    /// Mutable view of row `n`; `n` is below the height.
    ///
    /// Rows are lent out one at a time: a vector holding a mutable view of
    /// every row at once would need a contract over the final value of each
    /// of its elements, which Verus cannot state, so there is no `rows_mut`.
    pub fn row_mut(&mut self, n: usize) -> (r: &mut [A])
        requires
            old(self).wf(),
            n < old(self).rows_spec(),
        ensures
            r@ == old(self).flat().subrange(n * old(self).cols_spec(), (n + 1) * old(self).cols_spec()),
            final(self).rows_spec() == old(self).rows_spec(),
            final(self).cols_spec() == old(self).cols_spec(),
            final(self).flat() == old(self).flat().subrange(0, n * old(self).cols_spec()) + final(r)@
                + old(self).flat().subrange((n + 1) * old(self).cols_spec(), old(self).flat().len() as int),
            final(r)@.len() == old(self).cols_spec() ==> final(self).wf(),
            final(r)@.len() == old(self).cols_spec() ==> forall|yy: int, xx: int|
                0 <= yy < old(self).rows_spec() && 0 <= xx < old(self).cols_spec() ==> #[trigger] final(self).at(yy, xx)
                    == if yy == n {
                    final(r)@[xx]
                } else {
                    old(self).at(yy, xx)
                },
    {
        proof {
            lemma_row_end(n as int, self.height as int, self.width as int);
        }
        let w = self.width;
        let start = n * w;
        let all = self.data.as_mut_slice();
        let (_, rest) = all.split_at_mut(start);
        let (row, _) = rest.split_at_mut(w);
        proof {
            assert(row@ =~= old(self).data@.subrange(n * w, (n + 1) * w));
            lemma_row_splice(old(self).flat(), final(row)@, n as int, old(self).rows_spec() as int, old(self).cols_spec() as int);
            lemma_row_splice(old(self).data@, final(row)@, n as int, self.height as int, self.width as int);
            assert(forall|yy: int, xx: int| #[trigger] old(self).at(yy, xx) == cell(old(self).data@, self.width as int, yy, xx));
        }
        row
    }

    /// How a well-formed matrix lays out its elements: the buffer holds
    /// `rows * cols` elements, a number that fits in `usize`, and the element
    /// in row `y`, column `x` sits at index `y * cols + x`.
    pub proof fn lemma_layout(&self)
        requires
            self.wf(),
        ensures
            self.flat().len() == self.rows_spec() * self.cols_spec(),
            self.rows_spec() * self.cols_spec() <= usize::MAX,
            forall|y: int, x: int|
                0 <= y < self.rows_spec() && 0 <= x < self.cols_spec() ==> #[trigger] self.at(y, x) == self.flat()[y
                    * self.cols_spec() + x],
    {
    }

    /// The elements in row-major order: `rows * cols` of them, the element in
    /// row `y`, column `x` at index `y * cols + x`.
    pub fn data_slice(&self) -> (r: &[A])
        ensures
            r@ == self.flat(),
            self.wf() ==> r@.len() == self.rows_spec() * self.cols_spec(),
            self.wf() ==> forall|y: int, x: int|
                0 <= y < self.rows_spec() && 0 <= x < self.cols_spec() ==> #[trigger] self.at(y, x) == r@[y
                    * self.cols_spec() + x],
    {
        self.data.as_slice()
    }

    /// The rows, in order, each a view of `width` consecutive elements.
    pub fn rows(&self) -> (r: Vec<&[A]>)
        requires
            self.wf(),
        ensures
            r@.len() == self.rows_spec(),
            forall|y: int| 0 <= y < r@.len() ==> (#[trigger] r@[y])@.len() == self.cols_spec(),
            forall|y: int, x: int|
                0 <= y < self.rows_spec() && 0 <= x < self.cols_spec() ==> r@[y]@[x] == #[trigger] self.at(y, x),
            forall|y: int|
                0 <= y < r@.len() ==> (#[trigger] r@[y])@ == self.flat().subrange(
                    y * self.cols_spec(),
                    (y + 1) * self.cols_spec(),
                ),
    {
        let mut out: Vec<&[A]> = Vec::new();
        let mut y: usize = 0;
        while y < self.height
            invariant
                self.wf(),
                y <= self.height,
                out@.len() == y,
                forall|k: int| 0 <= k < y ==> (#[trigger] out@[k])@.len() == self.width,
                forall|k: int, x: int| 0 <= k < y && 0 <= x < self.width ==> out@[k]@[x] == #[trigger] self.at(k, x),
                forall|k: int|
                    0 <= k < y ==> (#[trigger] out@[k])@ == self.data@.subrange(
                        k * self.width,
                        (k + 1) * self.width,
                    ),
            decreases self.height - y,
        {
            proof {
                lemma_row_end(y as int, self.height as int, self.width as int);
            }
            let start = y * self.width;
            let row = vstd::slice::slice_subrange(self.data.as_slice(), start, start + self.width);
            out.push(row);
            y = y + 1;
        }
        out
    }

    /// The matrix of the same shape whose elements are `f` of this one's.
    pub fn map<B, F: Fn(&A) -> B>(&self, f: F) -> (r: Matrix<B>)
        requires
            self.wf(),
            forall|i: int| 0 <= i < self.flat().len() ==> f.requires((&#[trigger] self.flat()[i],)),
        ensures
            r.wf(),
            r.rows_spec() == self.rows_spec(),
            r.cols_spec() == self.cols_spec(),
            forall|i: int| 0 <= i < self.flat().len() ==> f.ensures((&self.flat()[i],), #[trigger] r.flat()[i]),
            forall|y: int, x: int|
                0 <= y < self.rows_spec() && 0 <= x < self.cols_spec() ==> f.ensures((&self.at(y, x),), #[trigger] r.at(y, x)),
    {
        let mut data: Vec<B> = Vec::new();
        let mut i: usize = 0;
        while i < self.data.len()
            invariant
                self.wf(),
                i <= self.data@.len(),
                data@.len() == i,
                forall|i: int| 0 <= i < self.flat().len() ==> f.requires((&#[trigger] self.flat()[i],)),
                forall|k: int| 0 <= k < i ==> f.ensures((&self.data@[k],), #[trigger] data@[k]),
            decreases self.data@.len() - i,
        {
            proof {
                assert(f.requires((&self.flat()[i as int],)));
            }
            let v = f(&self.data[i]);
            data.push(v);
            i = i + 1;
        }
        let r = Matrix { height: self.height, width: self.width, data };
        proof {
            assert forall|y: int, x: int|
                0 <= y < self.rows_spec() && 0 <= x < self.cols_spec() implies f.ensures((&self.at(y, x),), #[trigger] r.at(y, x)) by {
                lemma_index_in_grid(y, x, self.height as int, self.width as int);
                assert(r.at(y, x) == r.data@[y * self.width + x]);
            }
        }
        r
    }

    /// Same shape and same elements in the same order.
    pub closed spec fn equal_to(&self, o: &Matrix<A>) -> bool {
        self.height == o.height && self.width == o.width && self.data@ == o.data@
    }

    /// For well-formed matrices, being equal means having the same shape and
    /// the same element at every position.
    pub proof fn lemma_equal_to_elements(&self, o: &Matrix<A>)
        requires
            self.wf(),
            o.wf(),
        ensures
            self.equal_to(o) <==> (self.rows_spec() == o.rows_spec() && self.cols_spec() == o.cols_spec() && forall|y: int, x: int|
                0 <= y < self.rows_spec() && 0 <= x < self.cols_spec() ==> #[trigger] self.at(y, x) == o.at(y, x)),
    {
        if self.rows_spec() == o.rows_spec() && self.cols_spec() == o.cols_spec() && forall|y: int, x: int|
            0 <= y < self.rows_spec() && 0 <= x < self.cols_spec() ==> #[trigger] self.at(y, x) == o.at(y, x) {
            let w = self.width as int;
            let h = self.height as int;
            assert forall|k: int| 0 <= k < self.data@.len() implies self.data@[k] == o.data@[k] by {
                let y = k / w;
                let x = k % w;
                assert(w > 0) by (nonlinear_arith)
                    requires
                        0 <= k < h * w,
                        h >= 0,
                ;
                vstd::arithmetic::div_mod::lemma_fundamental_div_mod(k, w);
                assert(0 <= x < w);
                assert(0 <= y < h) by (nonlinear_arith)
                    requires
                        k == w * y + x,
                        0 <= x < w,
                        0 <= k < h * w,
                        w > 0,
                ;
                assert(y * w + x == k) by (nonlinear_arith)
                    requires
                        k == w * y + x,
                ;
                assert(self.at(y, x) == o.at(y, x));
            }
            assert(self.data@ =~= o.data@);
        }
    }

    pub fn height(&self) -> (r: usize)
        ensures
            r == self.rows_spec(),
    {
        self.height
    }

    pub fn width(&self) -> (r: usize)
        ensures
            r == self.cols_spec(),
    {
        self.width
    }
}

impl<A: Copy> Matrix<A> {
    /// The `height` by `width` matrix with every element equal to `v`.
    pub fn filled(height: usize, width: usize, v: A) -> (r: Matrix<A>)
        requires
            height * width <= usize::MAX,
        ensures
            r.wf(),
            r.rows_spec() == height,
            r.cols_spec() == width,
            forall|y: int, x: int| 0 <= y < height && 0 <= x < width ==> #[trigger] r.at(y, x) == v,
    {
        Matrix::by_pos(height, width, |y: usize, x: usize| -> (e: A)
            ensures
                e == v,
            { v })
    }

    /// The matrix with rows and columns exchanged.
    pub fn transpose(&self) -> (r: Matrix<A>)
        requires
            self.wf(),
        ensures
            r.wf(),
            r.rows_spec() == self.cols_spec(),
            r.cols_spec() == self.rows_spec(),
            forall|y: int, x: int|
                0 <= y < self.cols_spec() && 0 <= x < self.rows_spec() ==> #[trigger] r.at(y, x) == self.at(x, y),
    {
        proof {
            assert(self.width * self.height == self.height * self.width) by (nonlinear_arith);
        }
        Matrix::by_pos(self.width, self.height, |y: usize, x: usize| -> (e: A)
            requires
                self.wf(),
                y < self.width,
                x < self.height,
            ensures
                e == self.at(x as int, y as int),
            { *self.get(x, y).unwrap() })
    }

    /// The columns, in order, each as a vector of `height` elements.
    pub fn cols(&self) -> (r: Vec<Vec<A>>)
        requires
            self.wf(),
        ensures
            r@.len() == self.cols_spec(),
            forall|x: int| 0 <= x < r@.len() ==> (#[trigger] r@[x])@.len() == self.rows_spec(),
            forall|y: int, x: int|
                0 <= y < self.rows_spec() && 0 <= x < self.cols_spec() ==> r@[x]@[y] == #[trigger] self.at(y, x),
    {
        let t = self.transpose();
        let mut out: Vec<Vec<A>> = Vec::new();
        let mut x: usize = 0;
        while x < t.height
            invariant
                t.wf(),
                t.rows_spec() == self.cols_spec(),
                t.cols_spec() == self.rows_spec(),
                x <= t.height,
                out@.len() == x,
                forall|k: int| 0 <= k < x ==> (#[trigger] out@[k])@.len() == t.width,
                forall|k: int, y: int| 0 <= k < x && 0 <= y < t.width ==> out@[k]@[y] == #[trigger] t.at(k, y),
            decreases t.height - x,
        {
            let mut col: Vec<A> = Vec::new();
            let mut y: usize = 0;
            while y < t.width
                invariant
                    t.wf(),
                    x < t.height,
                    y <= t.width,
                    col@.len() == y,
                    forall|k: int| 0 <= k < y ==> #[trigger] col@[k] == t.at(x as int, k),
                decreases t.width - y,
            {
                col.push(*t.get(x, y).unwrap());
                y = y + 1;
            }
            out.push(col);
            x = x + 1;
        }
        proof {
            assert forall|y: int, x: int|
                0 <= y < self.rows_spec() && 0 <= x < self.cols_spec() implies out@[x]@[y] == #[trigger] self.at(y, x) by {
                assert(t.at(x, y) == self.at(y, x));
            }
        }
        out
    }
}

/// Row `i` of `a` as a function of the column.
pub open spec fn row_of<A>(a: Matrix<A>, i: int) -> spec_fn(int) -> A {
    |t: int| a.at(i, t)
}

/// Column `j` of `b` as a function of the row.
pub open spec fn col_of<A>(b: Matrix<A>, j: int) -> spec_fn(int) -> A {
    |t: int| b.at(t, j)
}

/// Column `j` of a grid given as a function of row and column.
pub open spec fn col_fn<A>(x: spec_fn(int, int) -> A, j: int) -> spec_fn(int) -> A {
    |t: int| x(t, j)
}

/// `x` solves the system `m * x == b`: every element of `b` is the sum of
/// the matching row of `m` against the matching column of `x`.
pub open spec fn solves<R: Ring>(m: Matrix<R>, b: Matrix<R>, x: spec_fn(int, int) -> R) -> bool {
    forall|i: int, j: int|
        0 <= i < b.rows_spec() && 0 <= j < b.cols_spec() ==> lin(row_of(m, i), col_fn(x, j), m.cols_spec())
            == #[trigger] b.at(i, j)
}

/// `x` agrees with `b` at every position of `b`.
pub open spec fn agrees<R: Ring>(x: spec_fn(int, int) -> R, b: Matrix<R>) -> bool {
    forall|i: int, j: int| 0 <= i < b.rows_spec() && 0 <= j < b.cols_spec() ==> x(i, j) == #[trigger] b.at(i, j)
}

/// Elimination of the square matrix `m` stops at column `c`: the columns
/// before it have one on the diagonal and zeros below, and column `c` is zero
/// on and below the diagonal, so `m` is singular.
pub open spec fn stalls_at<R: Ring>(m: Matrix<R>, c: int) -> bool {
    &&& 0 <= c < m.rows_spec()
    &&& forall|i: int| c <= i < m.rows_spec() ==> #[trigger] m.at(i, c) == R::zero_spec()
    &&& forall|k: int| 0 <= k < c ==> #[trigger] m.at(k, k) == R::one_spec()
    &&& forall|i: int, k: int| 0 <= k < c && k < i < m.rows_spec() ==> #[trigger] m.at(i, k) == R::zero_spec()
}

/// Row `i` of `m` is all zeros.
pub open spec fn zero_row<R: Ring>(m: Matrix<R>, i: int) -> bool {
    forall|t: int| 0 <= t < m.cols_spec() ==> #[trigger] m.at(i, t) == R::zero_spec()
}

/// Why a system could not be solved.
#[derive(Clone, Copy, Debug, PartialEq, Eq, Structural)]
pub enum SolveError {
    /// No nonzero pivot was left in some column: the matrix is singular.
    Singular,
}

impl<R: Ring> PartialEq for Matrix<R> {
    /// Equal shapes and equal elements; matrices of different shapes are never equal.
    fn eq(&self, other: &Matrix<R>) -> (r: bool) {
        self.equals(other)
    }
}

impl<R: Ring> vstd::std_specs::cmp::PartialEqSpecImpl for Matrix<R> {
    open spec fn obeys_eq_spec() -> bool {
        true
    }

    open spec fn eq_spec(&self, other: &Matrix<R>) -> bool {
        self.equal_to(other)
    }
}

/// Element `(i, j)` of the product `a * b`.
pub open spec fn dot<R: Ring>(a: Matrix<R>, b: Matrix<R>, i: int, j: int) -> R {
    lin(row_of(a, i), col_of(b, j), a.cols_spec())
}

/// The element of the `n` by `n` identity matrix at `(y, x)`.
pub open spec fn id_at<R: Ring>(y: int, x: int) -> R {
    if y == x {
        R::one_spec()
    } else {
        R::zero_spec()
    }
}

/// Adding a multiple of row `s` to row `d` in both `m` and `b` keeps the
/// solutions of `m * x == b`.
proof fn lemma_add_row_equiv<R: Ring>(
    m: Matrix<R>,
    b: Matrix<R>,
    m2: Matrix<R>,
    b2: Matrix<R>,
    s: int,
    d: int,
    lam: R,
)
    requires
        m.rows_spec() == b.rows_spec(),
        m2.rows_spec() == m.rows_spec(),
        m2.cols_spec() == m.cols_spec(),
        b2.rows_spec() == b.rows_spec(),
        b2.cols_spec() == b.cols_spec(),
        0 <= s < m.rows_spec(),
        0 <= d < m.rows_spec(),
        s != d,
        forall|y: int, x: int|
            0 <= y < m.rows_spec() && 0 <= x < m.cols_spec() ==> #[trigger] m2.at(y, x) == if y == d {
                R::add_spec(m.at(y, x), R::mul_spec(m.at(s, x), lam))
            } else {
                m.at(y, x)
            },
        forall|y: int, x: int|
            0 <= y < b.rows_spec() && 0 <= x < b.cols_spec() ==> #[trigger] b2.at(y, x) == if y == d {
                R::add_spec(b.at(y, x), R::mul_spec(b.at(s, x), lam))
            } else {
                b.at(y, x)
            },
    ensures
        forall|x: spec_fn(int, int) -> R| #[trigger] solves(m2, b2, x) <==> solves(m, b, x),
{
    let n = m.cols_spec();
    assert forall|x: spec_fn(int, int) -> R| #[trigger] solves(m2, b2, x) <==> solves(m, b, x) by {
        assert forall|i: int, j: int|
            0 <= i < m.rows_spec() && i != d implies #[trigger] lin(row_of(m2, i), col_fn(x, j), n) == lin(
                row_of(m, i),
                col_fn(x, j),
                n,
            ) by {
            lemma_lin_ext(row_of(m2, i), row_of(m, i), col_fn(x, j), col_fn(x, j), n);
        }
        assert forall|j: int| #[trigger] lin(row_of(m2, d), col_fn(x, j), n) == R::add_spec(
            lin(row_of(m, d), col_fn(x, j), n),
            R::mul_spec(lin(row_of(m, s), col_fn(x, j), n), lam),
        ) by {
            lemma_lin_affine(row_of(m2, d), row_of(m, d), row_of(m, s), lam, col_fn(x, j), n);
        }
        if solves(m2, b2, x) {
            assert forall|i: int, j: int| 0 <= i < b.rows_spec() && 0 <= j < b.cols_spec() implies lin(
                row_of(m, i),
                col_fn(x, j),
                n,
            ) == #[trigger] b.at(i, j) by {
                if i == d {
                    assert(b2.at(s, j) == b.at(s, j));
                    assert(b2.at(d, j) == R::add_spec(b.at(d, j), R::mul_spec(b.at(s, j), lam)));
                    lemma_add_cancel(
                        lin(row_of(m, d), col_fn(x, j), n),
                        b.at(d, j),
                        R::mul_spec(b.at(s, j), lam),
                    );
                } else {
                    assert(b2.at(i, j) == b.at(i, j));
                }
            }
        }
        if solves(m, b, x) {
            assert forall|i: int, j: int| 0 <= i < b2.rows_spec() && 0 <= j < b2.cols_spec() implies lin(
                row_of(m2, i),
                col_fn(x, j),
                n,
            ) == #[trigger] b2.at(i, j) by {
                assert(b.at(s, j) == lin(row_of(m, s), col_fn(x, j), n));
                assert(b.at(i, j) == lin(row_of(m, i), col_fn(x, j), n));
            }
        }
    }
}

/// Scaling row `r` by the inverse of a nonzero `p` in both `m` and `b` keeps
/// the solutions of `m * x == b`.
proof fn lemma_mul_row_equiv<R: Ring>(
    m: Matrix<R>,
    b: Matrix<R>,
    m2: Matrix<R>,
    b2: Matrix<R>,
    r: int,
    p: R,
)
    requires
        m.rows_spec() == b.rows_spec(),
        m2.rows_spec() == m.rows_spec(),
        m2.cols_spec() == m.cols_spec(),
        b2.rows_spec() == b.rows_spec(),
        b2.cols_spec() == b.cols_spec(),
        0 <= r < m.rows_spec(),
        p != R::zero_spec(),
        forall|y: int, x: int|
            0 <= y < m.rows_spec() && 0 <= x < m.cols_spec() ==> #[trigger] m2.at(y, x) == if y == r {
                R::mul_spec(m.at(y, x), R::inv_spec(p))
            } else {
                m.at(y, x)
            },
        forall|y: int, x: int|
            0 <= y < b.rows_spec() && 0 <= x < b.cols_spec() ==> #[trigger] b2.at(y, x) == if y == r {
                R::mul_spec(b.at(y, x), R::inv_spec(p))
            } else {
                b.at(y, x)
            },
    ensures
        forall|x: spec_fn(int, int) -> R| #[trigger] solves(m2, b2, x) <==> solves(m, b, x),
{
    let n = m.cols_spec();
    let lam = R::inv_spec(p);
    assert forall|x: spec_fn(int, int) -> R| #[trigger] solves(m2, b2, x) <==> solves(m, b, x) by {
        assert forall|i: int, j: int|
            0 <= i < m.rows_spec() && i != r implies #[trigger] lin(row_of(m2, i), col_fn(x, j), n) == lin(
                row_of(m, i),
                col_fn(x, j),
                n,
            ) by {
            lemma_lin_ext(row_of(m2, i), row_of(m, i), col_fn(x, j), col_fn(x, j), n);
        }
        assert forall|j: int| #[trigger] lin(row_of(m2, r), col_fn(x, j), n) == R::mul_spec(
            lin(row_of(m, r), col_fn(x, j), n),
            lam,
        ) by {
            lemma_lin_scale(row_of(m2, r), row_of(m, r), lam, col_fn(x, j), n);
        }
        if solves(m2, b2, x) {
            assert forall|i: int, j: int| 0 <= i < b.rows_spec() && 0 <= j < b.cols_spec() implies lin(
                row_of(m, i),
                col_fn(x, j),
                n,
            ) == #[trigger] b.at(i, j) by {
                if i == r {
                    assert(b2.at(r, j) == R::mul_spec(b.at(r, j), lam));
                    lemma_mul_cancel(lin(row_of(m, r), col_fn(x, j), n), b.at(r, j), p);
                } else {
                    assert(b2.at(i, j) == b.at(i, j));
                }
            }
        }
        if solves(m, b, x) {
            assert forall|i: int, j: int| 0 <= i < b2.rows_spec() && 0 <= j < b2.cols_spec() implies lin(
                row_of(m2, i),
                col_fn(x, j),
                n,
            ) == #[trigger] b2.at(i, j) by {
                assert(b.at(i, j) == lin(row_of(m, i), col_fn(x, j), n));
            }
        }
    }
}

/// Exchanging rows `a` and `c` in both `m` and `b` keeps the solutions of
/// `m * x == b`.
proof fn lemma_swap_equiv<R: Ring>(
    m: Matrix<R>,
    b: Matrix<R>,
    m2: Matrix<R>,
    b2: Matrix<R>,
    a: int,
    c: int,
)
    requires
        m.rows_spec() == b.rows_spec(),
        m2.rows_spec() == m.rows_spec(),
        m2.cols_spec() == m.cols_spec(),
        b2.rows_spec() == b.rows_spec(),
        b2.cols_spec() == b.cols_spec(),
        0 <= a < m.rows_spec(),
        0 <= c < m.rows_spec(),
        forall|y: int, x: int|
            0 <= y < m.rows_spec() && 0 <= x < m.cols_spec() ==> #[trigger] m2.at(y, x) == if y == a {
                m.at(c, x)
            } else if y == c {
                m.at(a, x)
            } else {
                m.at(y, x)
            },
        forall|y: int, x: int|
            0 <= y < b.rows_spec() && 0 <= x < b.cols_spec() ==> #[trigger] b2.at(y, x) == if y == a {
                b.at(c, x)
            } else if y == c {
                b.at(a, x)
            } else {
                b.at(y, x)
            },
    ensures
        forall|x: spec_fn(int, int) -> R| #[trigger] solves(m2, b2, x) <==> solves(m, b, x),
{
    let n = m.cols_spec();
    assert forall|x: spec_fn(int, int) -> R| #[trigger] solves(m2, b2, x) <==> solves(m, b, x) by {
        assert forall|i: int, j: int| 0 <= i < m.rows_spec() implies #[trigger] lin(row_of(m2, i), col_fn(x, j), n)
            == lin(row_of(m, if i == a { c } else if i == c { a } else { i }), col_fn(x, j), n) by {
            let k = if i == a { c } else if i == c { a } else { i };
            lemma_lin_ext(row_of(m2, i), row_of(m, k), col_fn(x, j), col_fn(x, j), n);
        }
        if solves(m2, b2, x) {
            assert forall|i: int, j: int| 0 <= i < b.rows_spec() && 0 <= j < b.cols_spec() implies lin(
                row_of(m, i),
                col_fn(x, j),
                n,
            ) == #[trigger] b.at(i, j) by {
                let k = if i == a { c } else if i == c { a } else { i };
                assert(b2.at(k, j) == b.at(i, j));
                assert(lin(row_of(m2, k), col_fn(x, j), n) == lin(row_of(m, i), col_fn(x, j), n));
            }
        }
        if solves(m, b, x) {
            assert forall|i: int, j: int| 0 <= i < b2.rows_spec() && 0 <= j < b2.cols_spec() implies lin(
                row_of(m2, i),
                col_fn(x, j),
                n,
            ) == #[trigger] b2.at(i, j) by {
                let k = if i == a { c } else if i == c { a } else { i };
                assert(b.at(k, j) == lin(row_of(m, k), col_fn(x, j), n));
            }
        }
    }
}

/// `z` is in the kernel of `m`: every row of `m` against `z` sums to zero.
pub open spec fn kills<R: Ring>(m: Matrix<R>, z: spec_fn(int) -> R) -> bool {
    forall|i: int| 0 <= i < m.rows_spec() ==> #[trigger] lin(row_of(m, i), z, m.cols_spec()) == R::zero_spec()
}

/// Only the zero vector is in the kernel of `m`: `m` is nonsingular.
pub open spec fn trivial_kernel<R: Ring>(m: Matrix<R>) -> bool {
    forall|z: spec_fn(int) -> R| #[trigger] kills(m, z) ==> forall|t: int| 0 <= t < m.cols_spec() ==> #[trigger] z(t) == R::zero_spec()
}

/// Adding a multiple of one row to another keeps the kernel.
proof fn lemma_add_row_kills<R: Ring>(m: Matrix<R>, m2: Matrix<R>, s: int, d: int, lam: R)
    requires
        m2.rows_spec() == m.rows_spec(),
        m2.cols_spec() == m.cols_spec(),
        0 <= s < m.rows_spec(),
        0 <= d < m.rows_spec(),
        s != d,
        forall|y: int, x: int|
            0 <= y < m.rows_spec() && 0 <= x < m.cols_spec() ==> #[trigger] m2.at(y, x) == if y == d {
                R::add_spec(m.at(y, x), R::mul_spec(m.at(s, x), lam))
            } else {
                m.at(y, x)
            },
    ensures
        forall|z: spec_fn(int) -> R| #[trigger] kills(m2, z) <==> kills(m, z),
{
    let n = m.cols_spec();
    assert forall|z: spec_fn(int) -> R| #[trigger] kills(m2, z) <==> kills(m, z) by {
        assert forall|i: int| 0 <= i < m.rows_spec() && i != d implies #[trigger] lin(row_of(m2, i), z, n) == lin(
            row_of(m, i),
            z,
            n,
        ) by {
            lemma_lin_ext(row_of(m2, i), row_of(m, i), z, z, n);
        }
        lemma_lin_affine(row_of(m2, d), row_of(m, d), row_of(m, s), lam, z, n);
        R::lemma_mul_zero(lam);
        R::lemma_add_zero(lin(row_of(m, d), z, n));
        R::lemma_add_zero(R::zero_spec());
        if kills(m2, z) {
            assert(lin(row_of(m2, s), z, n) == R::zero_spec());
            assert(lin(row_of(m2, d), z, n) == R::zero_spec());
            assert forall|i: int| 0 <= i < m.rows_spec() implies #[trigger] lin(row_of(m, i), z, n) == R::zero_spec() by {
                assert(lin(row_of(m2, i), z, n) == R::zero_spec());
            }
        }
        if kills(m, z) {
            assert(lin(row_of(m, s), z, n) == R::zero_spec());
            assert(lin(row_of(m, d), z, n) == R::zero_spec());
            assert forall|i: int| 0 <= i < m2.rows_spec() implies #[trigger] lin(row_of(m2, i), z, n) == R::zero_spec() by {
                assert(lin(row_of(m, i), z, n) == R::zero_spec());
            }
        }
    }
}

/// Scaling a row by the inverse of a nonzero `p` keeps the kernel.
proof fn lemma_mul_row_kills<R: Ring>(m: Matrix<R>, m2: Matrix<R>, r: int, p: R)
    requires
        m2.rows_spec() == m.rows_spec(),
        m2.cols_spec() == m.cols_spec(),
        0 <= r < m.rows_spec(),
        p != R::zero_spec(),
        forall|y: int, x: int|
            0 <= y < m.rows_spec() && 0 <= x < m.cols_spec() ==> #[trigger] m2.at(y, x) == if y == r {
                R::mul_spec(m.at(y, x), R::inv_spec(p))
            } else {
                m.at(y, x)
            },
    ensures
        forall|z: spec_fn(int) -> R| #[trigger] kills(m2, z) <==> kills(m, z),
{
    let n = m.cols_spec();
    let q = R::inv_spec(p);
    assert forall|z: spec_fn(int) -> R| #[trigger] kills(m2, z) <==> kills(m, z) by {
        assert forall|i: int| 0 <= i < m.rows_spec() && i != r implies #[trigger] lin(row_of(m2, i), z, n) == lin(
            row_of(m, i),
            z,
            n,
        ) by {
            lemma_lin_ext(row_of(m2, i), row_of(m, i), z, z, n);
        }
        lemma_lin_scale(row_of(m2, r), row_of(m, r), q, z, n);
        R::lemma_mul_zero(q);
        if kills(m2, z) {
            assert(lin(row_of(m2, r), z, n) == R::zero_spec());
            lemma_mul_cancel(lin(row_of(m, r), z, n), R::zero_spec(), p);
            assert forall|i: int| 0 <= i < m.rows_spec() implies #[trigger] lin(row_of(m, i), z, n) == R::zero_spec() by {
                assert(lin(row_of(m2, i), z, n) == R::zero_spec());
            }
        }
        if kills(m, z) {
            assert(lin(row_of(m, r), z, n) == R::zero_spec());
            assert forall|i: int| 0 <= i < m2.rows_spec() implies #[trigger] lin(row_of(m2, i), z, n) == R::zero_spec() by {
                assert(lin(row_of(m, i), z, n) == R::zero_spec());
            }
        }
    }
}

/// Exchanging two rows keeps the kernel.
proof fn lemma_swap_kills<R: Ring>(m: Matrix<R>, m2: Matrix<R>, a: int, c: int)
    requires
        m2.rows_spec() == m.rows_spec(),
        m2.cols_spec() == m.cols_spec(),
        0 <= a < m.rows_spec(),
        0 <= c < m.rows_spec(),
        forall|y: int, x: int|
            0 <= y < m.rows_spec() && 0 <= x < m.cols_spec() ==> #[trigger] m2.at(y, x) == if y == a {
                m.at(c, x)
            } else if y == c {
                m.at(a, x)
            } else {
                m.at(y, x)
            },
    ensures
        forall|z: spec_fn(int) -> R| #[trigger] kills(m2, z) <==> kills(m, z),
{
    let n = m.cols_spec();
    assert forall|z: spec_fn(int) -> R| #[trigger] kills(m2, z) <==> kills(m, z) by {
        assert forall|i: int| 0 <= i < m.rows_spec() implies #[trigger] lin(row_of(m2, i), z, n) == lin(
            row_of(m, if i == a { c } else if i == c { a } else { i }),
            z,
            n,
        ) by {
            let k = if i == a { c } else if i == c { a } else { i };
            lemma_lin_ext(row_of(m2, i), row_of(m, k), z, z, n);
        }
        if kills(m2, z) {
            assert forall|i: int| 0 <= i < m.rows_spec() implies #[trigger] lin(row_of(m, i), z, n) == R::zero_spec() by {
                let k = if i == a { c } else if i == c { a } else { i };
                assert(lin(row_of(m2, k), z, n) == R::zero_spec());
            }
        }
        if kills(m, z) {
            assert forall|i: int| 0 <= i < m.rows_spec() implies #[trigger] lin(row_of(m2, i), z, n) == R::zero_spec() by {
                let k = if i == a { c } else if i == c { a } else { i };
                assert(lin(row_of(m, k), z, n) == R::zero_spec());
            }
        }
    }
}

/// A vector in the kernel of a matrix whose first `c` columns are those of
/// the identity: one at `c`, minus column `c` above it, zero below.
pub open spec fn kernel_vec<R: Ring>(m: Matrix<R>, c: int) -> spec_fn(int) -> R {
    |j: int|
        if j == c {
            R::one_spec()
        } else if j < c {
            R::neg_spec(m.at(j, c))
        } else {
            R::zero_spec()
        }
}

/// A square matrix whose first `c` columns are those of the identity and whose
/// column `c` is zero on and below the diagonal kills `kernel_vec(m, c)`.
proof fn lemma_stalled_kernel<R: Ring>(m: Matrix<R>, c: int)
    requires
        m.rows_spec() == m.cols_spec(),
        0 <= c < m.rows_spec(),
        forall|i: int, k: int| 0 <= i < m.rows_spec() && 0 <= k < c ==> #[trigger] m.at(i, k) == id_at::<R>(i, k),
        forall|i: int| c <= i < m.rows_spec() ==> #[trigger] m.at(i, c) == R::zero_spec(),
    ensures
        kills(m, kernel_vec(m, c)),
{
    let n = m.cols_spec();
    let z = kernel_vec(m, c);
    let zero_fn = |t: int| R::zero_spec();
    assert forall|i: int| 0 <= i < m.rows_spec() implies #[trigger] lin(row_of(m, i), z, n) == R::zero_spec() by {
        if i < c {
            let mic = m.at(i, c);
            let ei = |j: int| id_at::<R>(i, j);
            let ec = |j: int| id_at::<R>(c, j);
            let w = |j: int| if j == i { R::one_spec() } else if j == c { mic } else { R::zero_spec() };
            assert forall|t: int| 0 <= t < n implies #[trigger] R::mul_spec(row_of(m, i)(t), z(t)) == R::mul_spec(
                w(t),
                z(t),
            ) by {
                R::lemma_mul_zero(m.at(i, t));
                R::lemma_mul_zero(w(t));
                if t < c {
                    assert(m.at(i, t) == id_at::<R>(i, t));
                    assert(m.at(i, t) == w(t));
                } else if t == c {
                    assert(m.at(i, t) == w(t));
                }
            }
            lemma_lin_ext_products(row_of(m, i), z, w, z, n);
            R::lemma_mul_zero(mic);
            R::lemma_mul_one(mic);
            R::lemma_add_zero(R::zero_spec());
            R::lemma_add_zero(mic);
            R::lemma_add_zero(R::one_spec());
            lemma_lin_affine(w, ei, ec, mic, z, n);
            lemma_lin_unit_left(ei, z, i, n);
            lemma_lin_unit_left(ec, z, c, n);
            R::lemma_add_comm(R::neg_spec(mic), mic);
            R::lemma_add_neg(mic);
        } else {
            assert forall|t: int| 0 <= t < n implies #[trigger] R::mul_spec(row_of(m, i)(t), z(t)) == R::mul_spec(
                row_of(m, i)(t),
                zero_fn(t),
            ) by {
                R::lemma_mul_zero(m.at(i, t));
                R::lemma_mul_zero(z(t));
            }
            lemma_lin_ext_products(row_of(m, i), z, row_of(m, i), zero_fn, n);
            lemma_lin_zero_right(row_of(m, i), zero_fn, n);
        }
    }
}

/// The rows of `m` weighted by `c` add up to zero in every column.
pub open spec fn rows_cancel<R: Ring>(m: Matrix<R>, c: spec_fn(int) -> R) -> bool {
    forall|t: int| 0 <= t < m.cols_spec() ==> #[trigger] lin(c, col_of(m, t), m.rows_spec()) == R::zero_spec()
}

/// Some weight among the first `n` is nonzero.
pub open spec fn some_nonzero<R: Ring>(c: spec_fn(int) -> R, n: nat) -> bool {
    exists|i: int| 0 <= i < n && #[trigger] c(i) != R::zero_spec()
}

/// The rows of `m` are linearly dependent, with weights `c`.
pub open spec fn dependent<R: Ring>(m: Matrix<R>, c: spec_fn(int) -> R) -> bool {
    rows_cancel(m, c) && some_nonzero(c, m.rows_spec())
}

/// Weights `c` with those of rows `a` and `b` exchanged.
pub open spec fn swap_weights<R: Ring>(c: spec_fn(int) -> R, a: int, b: int) -> spec_fn(int) -> R {
    |i: int|
        if i == a {
            c(b)
        } else if i == b {
            c(a)
        } else {
            c(i)
        }
}

/// Weights `c` with that of row `r` multiplied by `p`.
pub open spec fn scale_weight<R: Ring>(c: spec_fn(int) -> R, r: int, p: R) -> spec_fn(int) -> R {
    |i: int|
        if i == r {
            R::mul_spec(c(r), p)
        } else {
            c(i)
        }
}

/// Weights `c` after row `d` received row `s` times `lam`: the weight of `s`
/// loses `c(d) * lam`.
pub open spec fn shift_weight<R: Ring>(c: spec_fn(int) -> R, s: int, d: int, lam: R) -> spec_fn(int) -> R {
    |i: int|
        if i == s {
            R::add_spec(c(s), R::neg_spec(R::mul_spec(c(d), lam)))
        } else {
            c(i)
        }
}

/// A dependency among the rows survives an exchange of two rows.
proof fn lemma_swap_dependent<R: Ring>(m: Matrix<R>, m2: Matrix<R>, a: int, b: int, c: spec_fn(int) -> R)
    requires
        m2.rows_spec() == m.rows_spec(),
        m2.cols_spec() == m.cols_spec(),
        0 <= a < m.rows_spec(),
        0 <= b < m.rows_spec(),
        forall|y: int, x: int|
            0 <= y < m.rows_spec() && 0 <= x < m.cols_spec() ==> #[trigger] m2.at(y, x) == if y == a {
                m.at(b, x)
            } else if y == b {
                m.at(a, x)
            } else {
                m.at(y, x)
            },
        dependent(m, c),
    ensures
        dependent(m2, swap_weights(c, a, b)),
{
    let n = m.rows_spec();
    let c2 = swap_weights(c, a, b);
    assert forall|t: int| 0 <= t < m2.cols_spec() implies #[trigger] lin(c2, col_of(m2, t), n) == R::zero_spec() by {
        let v = col_of(m, t);
        let v2 = col_of(m2, t);
        if a == b {
            lemma_lin_ext(c2, c, v2, v, n);
        } else {
            let u1 = |i: int| if i == a { c(b) } else { c(i) };
            let v1 = |i: int| if i == a { m.at(b, t) } else { m.at(i, t) };
            lemma_lin_update(c, v, u1, v1, a, n);
            lemma_lin_update(u1, v1, c2, v2, b, n);
            let xa = R::mul_spec(c(a), m.at(a, t));
            let xb = R::mul_spec(c(b), m.at(b, t));
            assert(R::add_spec(lin(c2, v2, n), xb) == R::add_spec(lin(c, v, n), xb));
            lemma_add_cancel(lin(c2, v2, n), lin(c, v, n), xb);
        }
    }
    let i = choose|i: int| 0 <= i < n && #[trigger] c(i) != R::zero_spec();
    let k = if i == a { b } else if i == b { a } else { i };
    assert(c2(k) != R::zero_spec());
}

/// A dependency among the rows survives scaling a row by the inverse of a
/// nonzero `p`.
proof fn lemma_scale_dependent<R: Ring>(m: Matrix<R>, m2: Matrix<R>, r: int, p: R, c: spec_fn(int) -> R)
    requires
        m2.rows_spec() == m.rows_spec(),
        m2.cols_spec() == m.cols_spec(),
        0 <= r < m.rows_spec(),
        p != R::zero_spec(),
        forall|y: int, x: int|
            0 <= y < m.rows_spec() && 0 <= x < m.cols_spec() ==> #[trigger] m2.at(y, x) == if y == r {
                R::mul_spec(m.at(y, x), R::inv_spec(p))
            } else {
                m.at(y, x)
            },
        dependent(m, c),
    ensures
        dependent(m2, scale_weight(c, r, p)),
{
    let n = m.rows_spec();
    let q = R::inv_spec(p);
    let c2 = scale_weight(c, r, p);
    R::lemma_mul_inv(p);
    assert forall|t: int| 0 <= t < m2.cols_spec() implies #[trigger] lin(c2, col_of(m2, t), n) == R::zero_spec() by {
        let v = col_of(m, t);
        let v2 = col_of(m2, t);
        lemma_lin_update(c, v, c2, v2, r, n);
        let cr = c(r);
        let mr = m.at(r, t);
        R::lemma_mul_assoc(cr, p, R::mul_spec(mr, q));
        R::lemma_mul_assoc(p, mr, q);
        R::lemma_mul_comm(p, mr);
        R::lemma_mul_assoc(mr, p, q);
        R::lemma_mul_one(mr);
        assert(R::mul_spec(c2(r), v2(r)) == R::mul_spec(cr, mr));
        lemma_add_cancel(lin(c2, v2, n), lin(c, v, n), R::mul_spec(cr, mr));
    }
    let i = choose|i: int| 0 <= i < n && #[trigger] c(i) != R::zero_spec();
    if i == r {
        R::lemma_mul_assoc(c(r), p, q);
        R::lemma_mul_one(c(r));
        R::lemma_mul_zero(q);
    }
    assert(c2(i) != R::zero_spec());
}

/// A dependency among the rows survives adding `lam` times row `s` to row `d`.
proof fn lemma_shift_dependent<R: Ring>(m: Matrix<R>, m2: Matrix<R>, s: int, d: int, lam: R, c: spec_fn(int) -> R)
    requires
        m2.rows_spec() == m.rows_spec(),
        m2.cols_spec() == m.cols_spec(),
        0 <= s < m.rows_spec(),
        0 <= d < m.rows_spec(),
        s != d,
        forall|y: int, x: int|
            0 <= y < m.rows_spec() && 0 <= x < m.cols_spec() ==> #[trigger] m2.at(y, x) == if y == d {
                R::add_spec(m.at(y, x), R::mul_spec(m.at(s, x), lam))
            } else {
                m.at(y, x)
            },
        dependent(m, c),
    ensures
        dependent(m2, shift_weight(c, s, d, lam)),
{
    let n = m.rows_spec();
    let c2 = shift_weight(c, s, d, lam);
    assert forall|t: int| 0 <= t < m2.cols_spec() implies #[trigger] lin(c2, col_of(m2, t), n) == R::zero_spec() by {
        let v = col_of(m, t);
        let v2 = col_of(m2, t);
        let l = lin(c, v, n);
        let l1 = lin(c, v2, n);
        let l2 = lin(c2, v2, n);
        let cd = c(d);
        let ms = m.at(s, t);
        let a = R::mul_spec(cd, m.at(d, t));
        let y = R::mul_spec(cd, R::mul_spec(ms, lam));
        let sv = R::mul_spec(c(s), ms);
        let ny = R::neg_spec(y);
        lemma_lin_update(c, v, c, v2, d, n);
        R::lemma_distrib(cd, m.at(d, t), R::mul_spec(ms, lam));
        R::lemma_add_assoc(l, a, y);
        lemma_add_right_comm(l, y, a);
        R::lemma_add_comm(l, a);
        lemma_add_cancel(l1, R::add_spec(l, y), a);
        lemma_lin_update(c, v2, c2, v2, s, n);
        lemma_distrib_right(c(s), R::neg_spec(R::mul_spec(cd, lam)), ms);
        lemma_mul_neg(R::mul_spec(cd, lam), ms);
        R::lemma_mul_assoc(cd, lam, ms);
        R::lemma_mul_comm(lam, ms);
        R::lemma_add_comm(sv, ny);
        R::lemma_add_assoc(l1, ny, sv);
        R::lemma_add_comm(ny, sv);
        lemma_add_cancel(l2, R::add_spec(l1, ny), sv);
        R::lemma_add_assoc(l, y, ny);
        R::lemma_add_neg(y);
        R::lemma_add_zero(l);
    }
    let i = choose|i: int| 0 <= i < n && #[trigger] c(i) != R::zero_spec();
    if i == s && c(d) == R::zero_spec() {
        R::lemma_mul_zero(lam);
        lemma_neg_zero::<R>();
        R::lemma_add_zero(c(s));
        assert(c2(s) != R::zero_spec());
    } else if i == s {
        assert(c2(d) != R::zero_spec());
    } else {
        assert(c2(i) != R::zero_spec());
    }
}

impl<R: Ring> Matrix<R> {
    /// Equal shapes and equal elements; matrices of different shapes are never equal.
    pub fn equals(&self, other: &Matrix<R>) -> (r: bool)
        ensures
            r == self.equal_to(other),
    {
        if self.width != other.width || self.height != other.height {
            return false;
        }
        if self.data.len() != other.data.len() {
            return false;
        }
        let mut i: usize = 0;
        while i < self.data.len()
            invariant
                self.data@.len() == other.data@.len(),
                i <= self.data@.len(),
                forall|k: int| 0 <= k < i ==> #[trigger] self.data@[k] == other.data@[k],
            decreases self.data@.len() - i,
        {
            if !self.data[i].equals(&other.data[i]) {
                return false;
            }
            i = i + 1;
        }
        proof {
            assert(self.data@ =~= other.data@);
        }
        true
    }

    /// Multiplies every element of row `y` by `lam` (on the right).
    fn mul_row(&mut self, y: usize, lam: R)
        requires
            old(self).wf(),
            y < old(self).rows_spec(),
        ensures
            final(self).wf(),
            final(self).rows_spec() == old(self).rows_spec(),
            final(self).cols_spec() == old(self).cols_spec(),
            forall|yy: int, xx: int|
                0 <= yy < old(self).rows_spec() && 0 <= xx < old(self).cols_spec() ==> #[trigger] final(self).at(yy, xx) == if yy == y {
                    R::mul_spec(old(self).at(yy, xx), lam)
                } else {
                    old(self).at(yy, xx)
                },
    {
        let ghost w = self.width as int;
        let ghost h = self.height as int;
        proof {
            lemma_row_end(y as int, h, w);
        }
        let row = self.row_mut(y);
        let ghost orig = row@;
        let mut x: usize = 0;
        while x < row.len()
            invariant
                orig.len() == w,
                row@.len() == w,
                x <= w,
                forall|k: int| 0 <= k < w ==> #[trigger] row@[k] == if k < x {
                    R::mul_spec(orig[k], lam)
                } else {
                    orig[k]
                },
            decreases w - x,
        {
            let v = row[x].times(&lam);
            row[x] = v;
            x = x + 1;
        }
        proof {
            assert forall|yy: int, xx: int|
                0 <= yy < h && 0 <= xx < w implies #[trigger] self.at(yy, xx) == if yy == y {
                    R::mul_spec(old(self).at(yy, xx), lam)
                } else {
                    old(self).at(yy, xx)
                } by {
                lemma_index_in_grid(yy, xx, h, w);
                if yy < y {
                    lemma_index_in_grid(yy, xx, y as int, w);
                } else if yy > y {
                    lemma_row_end(y as int, yy, w);
                }
            }
        }
    }

    /// Adds row `src` multiplied by `lam` (on the right) to row `dest`.
    fn add_row(&mut self, src: usize, dest: usize, lam: R)
        requires
            old(self).wf(),
            src < old(self).rows_spec(),
            dest < old(self).rows_spec(),
            src != dest,
        ensures
            final(self).wf(),
            final(self).rows_spec() == old(self).rows_spec(),
            final(self).cols_spec() == old(self).cols_spec(),
            forall|yy: int, xx: int|
                0 <= yy < old(self).rows_spec() && 0 <= xx < old(self).cols_spec() ==> #[trigger] final(self).at(yy, xx) == if yy == dest {
                    R::add_spec(old(self).at(yy, xx), R::mul_spec(old(self).at(src as int, xx), lam))
                } else {
                    old(self).at(yy, xx)
                },
    {
        let w = self.width;
        let mut x: usize = 0;
        while x < w
            invariant
                self.wf(),
                self.height == old(self).height,
                self.width == w,
                w == old(self).width,
                src < self.height,
                dest < self.height,
                src != dest,
                x <= w,
                forall|yy: int, xx: int|
                    0 <= yy < self.height && 0 <= xx < w ==> #[trigger] self.at(yy, xx) == if yy == dest && xx < x {
                        R::add_spec(old(self).at(yy, xx), R::mul_spec(old(self).at(src as int, xx), lam))
                    } else {
                        old(self).at(yy, xx)
                    },
            decreases w - x,
        {
            proof {
                lemma_index_in_grid(dest as int, x as int, self.height as int, w as int);
                lemma_index_in_grid(src as int, x as int, self.height as int, w as int);
            }
            let i = dest * w + x;
            let j = src * w + x;
            let sv = self.data[j].times(&lam);
            let v = self.data[i].plus(&sv);
            let ghost prev = *self;
            proof {
                assert(prev.at(src as int, x as int) == old(self).at(src as int, x as int));
                assert(prev.at(dest as int, x as int) == old(self).at(dest as int, x as int));
            }
            self.data.set(i, v);
            proof {
                assert forall|yy: int, xx: int|
                    0 <= yy < self.height && 0 <= xx < w implies #[trigger] self.at(yy, xx) == if yy == dest && xx < x + 1 {
                        R::add_spec(old(self).at(yy, xx), R::mul_spec(old(self).at(src as int, xx), lam))
                    } else {
                        old(self).at(yy, xx)
                    } by {
                    if yy != dest || xx != x {
                        lemma_index_distinct(yy, xx, dest as int, x as int, self.height as int, w as int);
                        lemma_index_in_grid(yy, xx, self.height as int, w as int);
                        assert(self.at(yy, xx) == prev.at(yy, xx));
                    }
                }
            }
            x = x + 1;
        }
    }

    /// Exchanges rows `a` and `b`.
    fn swap_rows(&mut self, a: usize, b: usize)
        requires
            old(self).wf(),
            a < old(self).rows_spec(),
            b < old(self).rows_spec(),
        ensures
            final(self).wf(),
            final(self).rows_spec() == old(self).rows_spec(),
            final(self).cols_spec() == old(self).cols_spec(),
            forall|yy: int, xx: int|
                0 <= yy < old(self).rows_spec() && 0 <= xx < old(self).cols_spec() ==> #[trigger] final(self).at(yy, xx) == if yy == a {
                    old(self).at(b as int, xx)
                } else if yy == b {
                    old(self).at(a as int, xx)
                } else {
                    old(self).at(yy, xx)
                },
    {
        if a == b {
            return;
        }
        let w = self.width;
        let mut x: usize = 0;
        while x < w
            invariant
                self.wf(),
                self.height == old(self).height,
                self.width == w,
                w == old(self).width,
                a < self.height,
                b < self.height,
                a != b,
                x <= w,
                forall|yy: int, xx: int|
                    0 <= yy < self.height && 0 <= xx < w ==> #[trigger] self.at(yy, xx) == if yy == a && xx < x {
                        old(self).at(b as int, xx)
                    } else if yy == b && xx < x {
                        old(self).at(a as int, xx)
                    } else {
                        old(self).at(yy, xx)
                    },
            decreases w - x,
        {
            proof {
                lemma_index_in_grid(a as int, x as int, self.height as int, w as int);
                lemma_index_in_grid(b as int, x as int, self.height as int, w as int);
                lemma_index_distinct(a as int, x as int, b as int, x as int, self.height as int, w as int);
            }
            let i = a * w + x;
            let j = b * w + x;
            let va = self.data[i];
            let vb = self.data[j];
            let ghost prev = *self;
            proof {
                assert(prev.at(a as int, x as int) == old(self).at(a as int, x as int));
                assert(prev.at(b as int, x as int) == old(self).at(b as int, x as int));
            }
            self.data.set(i, vb);
            self.data.set(j, va);
            proof {
                assert forall|yy: int, xx: int|
                    0 <= yy < self.height && 0 <= xx < w implies #[trigger] self.at(yy, xx) == if yy == a && xx < x + 1 {
                        old(self).at(b as int, xx)
                    } else if yy == b && xx < x + 1 {
                        old(self).at(a as int, xx)
                    } else {
                        old(self).at(yy, xx)
                    } by {
                    if yy != a || xx != x {
                        lemma_index_distinct(yy, xx, a as int, x as int, self.height as int, w as int);
                    }
                    if yy != b || xx != x {
                        lemma_index_distinct(yy, xx, b as int, x as int, self.height as int, w as int);
                    }
                    if (yy != a || xx != x) && (yy != b || xx != x) {
                        lemma_index_in_grid(yy, xx, self.height as int, w as int);
                        assert(self.at(yy, xx) == prev.at(yy, xx));
                    }
                }
            }
            x = x + 1;
        }
    }

    /// The `size` by `size` identity matrix.
    pub fn id(size: usize) -> (r: Matrix<R>)
        requires
            size * size <= usize::MAX,
        ensures
            r.wf(),
            r.rows_spec() == size,
            r.cols_spec() == size,
            forall|y: int, x: int| 0 <= y < size && 0 <= x < size ==> #[trigger] r.at(y, x) == id_at::<R>(y, x),
    {
        Matrix::by_pos(size, size, |y: usize, x: usize| -> (e: R)
            ensures
                e == id_at::<R>(y as int, x as int),
            {
                if x == y {
                    R::one()
                } else {
                    R::zero()
                }
            })
    }

    /// The element-wise sum; both matrices have the same shape.
    pub fn add(&self, rhs: &Matrix<R>) -> (r: Matrix<R>)
        requires
            self.wf(),
            rhs.wf(),
            self.rows_spec() == rhs.rows_spec(),
            self.cols_spec() == rhs.cols_spec(),
        ensures
            r.wf(),
            r.rows_spec() == self.rows_spec(),
            r.cols_spec() == self.cols_spec(),
            forall|y: int, x: int|
                0 <= y < self.rows_spec() && 0 <= x < self.cols_spec() ==> #[trigger] r.at(y, x) == R::add_spec(
                    self.at(y, x),
                    rhs.at(y, x),
                ),
    {
        Matrix::by_pos(self.height, self.width, |y: usize, x: usize| -> (e: R)
            requires
                self.wf(),
                rhs.wf(),
                self.rows_spec() == rhs.rows_spec(),
                self.cols_spec() == rhs.cols_spec(),
                y < self.height,
                x < self.width,
            ensures
                e == R::add_spec(self.at(y as int, x as int), rhs.at(y as int, x as int)),
            { self.get(y, x).unwrap().plus(rhs.get(y, x).unwrap()) })
    }

    /// The matrix product; the width of `self` equals the height of `rhs`.
    /// Element `(i, j)` is `sum_k self(i, k) * rhs(k, j)`, accumulated from zero in increasing `k`.
    pub fn mul(&self, rhs: &Matrix<R>) -> (r: Matrix<R>)
        requires
            self.wf(),
            rhs.wf(),
            self.cols_spec() == rhs.rows_spec(),
            self.rows_spec() * rhs.cols_spec() <= usize::MAX,
        ensures
            r.wf(),
            r.rows_spec() == self.rows_spec(),
            r.cols_spec() == rhs.cols_spec(),
            forall|i: int, j: int|
                0 <= i < self.rows_spec() && 0 <= j < rhs.cols_spec() ==> #[trigger] r.at(i, j) == dot(*self, *rhs, i, j),
    {
        let n = self.width;
        Matrix::by_pos(self.height, rhs.width, |i: usize, j: usize| -> (e: R)
            requires
                self.wf(),
                rhs.wf(),
                self.cols_spec() == rhs.rows_spec(),
                n == self.width,
                i < self.height,
                j < rhs.width,
            ensures
                e == dot(*self, *rhs, i as int, j as int),
            {
                let mut acc = R::zero();
                let mut k: usize = 0;
                while k < n
                    invariant
                        self.wf(),
                        rhs.wf(),
                        self.cols_spec() == rhs.rows_spec(),
                        n == self.width,
                        i < self.height,
                        j < rhs.width,
                        k <= n,
                        acc == lin(row_of(*self, i as int), col_of(*rhs, j as int), k as nat),
                    decreases n - k,
                {
                    let p = self.get(i, k).unwrap().times(rhs.get(k, j).unwrap());
                    acc = acc.plus(&p);
                    k = k + 1;
                }
                acc
            })
    }
    /// Clears the entries above the diagonal in the first `c` columns, by the
    /// same row operations on `self` and `rhs`, so that those columns become
    /// the identity's.
    fn clear_above(&mut self, rhs: &mut Matrix<R>, c: usize)
        requires
            old(self).wf(),
            old(rhs).wf(),
            old(self).rows_spec() == old(self).cols_spec(),
            old(rhs).rows_spec() == old(self).rows_spec(),
            c < old(self).rows_spec(),
            forall|k: int| 0 <= k < c ==> #[trigger] old(self).at(k, k) == R::one_spec(),
            forall|i: int, k: int|
                0 <= k < c && k < i < old(self).rows_spec() ==> #[trigger] old(self).at(i, k) == R::zero_spec(),
            forall|i: int| c <= i < old(self).rows_spec() ==> #[trigger] old(self).at(i, c as int) == R::zero_spec(),
        ensures
            final(self).wf(),
            final(rhs).wf(),
            final(self).rows_spec() == old(self).rows_spec(),
            final(self).cols_spec() == old(self).cols_spec(),
            final(rhs).rows_spec() == old(rhs).rows_spec(),
            final(rhs).cols_spec() == old(rhs).cols_spec(),
            forall|x: spec_fn(int, int) -> R| #[trigger] solves(*final(self), *final(rhs), x) <==> solves(
                *old(self),
                *old(rhs),
                x,
            ),
            forall|z: spec_fn(int) -> R| #[trigger] kills(*final(self), z) <==> kills(*old(self), z),
            forall|i: int, k: int|
                0 <= i < old(self).rows_spec() && 0 <= k < c ==> #[trigger] final(self).at(i, k) == id_at::<R>(i, k),
            forall|i: int| c <= i < old(self).rows_spec() ==> #[trigger] final(self).at(i, c as int) == R::zero_spec(),
            forall|i: int| c <= i < old(self).rows_spec() ==> #[trigger] final(self).at(i, c as int) == old(self).at(
                i,
                c as int,
            ),
    {
        let n = self.height;
        let ghost m0 = *self;
        let ghost b0 = *rhs;
        let mut r: usize = c;
        while r > 0
            invariant
                self.wf(),
                rhs.wf(),
                n == m0.rows_spec(),
                m0 == *old(self),
                b0 == *old(rhs),
                self.rows_spec() == n,
                self.cols_spec() == n,
                rhs.rows_spec() == n,
                rhs.cols_spec() == b0.cols_spec(),
                m0.cols_spec() == n,
                c < n,
                r <= c,
                forall|x: spec_fn(int, int) -> R| #[trigger] solves(*self, *rhs, x) <==> solves(m0, b0, x),
                forall|z: spec_fn(int) -> R| #[trigger] kills(*self, z) <==> kills(m0, z),
                forall|k: int| 0 <= k < c ==> #[trigger] self.at(k, k) == R::one_spec(),
                forall|i: int, k: int| 0 <= k < c && k < i < n ==> #[trigger] self.at(i, k) == R::zero_spec(),
                forall|i: int, k: int| r <= k < c && 0 <= i < k ==> #[trigger] self.at(i, k) == R::zero_spec(),
                forall|i: int| c <= i < n ==> #[trigger] self.at(i, c as int) == m0.at(i, c as int),
            decreases r,
        {
            r = r - 1;
            let mut r2: usize = 0;
            while r2 < r
                invariant
                    self.wf(),
                    rhs.wf(),
                    n == m0.rows_spec(),
                    self.rows_spec() == n,
                    self.cols_spec() == n,
                    rhs.rows_spec() == n,
                    rhs.cols_spec() == b0.cols_spec(),
                    m0.cols_spec() == n,
                    c < n,
                    r < c,
                    r2 <= r,
                    forall|x: spec_fn(int, int) -> R| #[trigger] solves(*self, *rhs, x) <==> solves(m0, b0, x),
                    forall|z: spec_fn(int) -> R| #[trigger] kills(*self, z) <==> kills(m0, z),
                    forall|k: int| 0 <= k < c ==> #[trigger] self.at(k, k) == R::one_spec(),
                    forall|i: int, k: int| 0 <= k < c && k < i < n ==> #[trigger] self.at(i, k) == R::zero_spec(),
                    forall|i: int, k: int| r < k < c && 0 <= i < k ==> #[trigger] self.at(i, k) == R::zero_spec(),
                    forall|i: int| 0 <= i < r2 ==> #[trigger] self.at(i, r as int) == R::zero_spec(),
                    forall|i: int| c <= i < n ==> #[trigger] self.at(i, c as int) == m0.at(i, c as int),
                decreases r - r2,
            {
                let a = *self.get(r2, r).unwrap();
                let lam = a.negate();
                let ghost sm = *self;
                let ghost sb = *rhs;
                self.add_row(r, r2, lam);
                rhs.add_row(r, r2, lam);
                proof {
                    lemma_add_row_equiv(sm, sb, *self, *rhs, r as int, r2 as int, lam);
                    lemma_add_row_kills(sm, *self, r as int, r2 as int, lam);
                    R::lemma_mul_one(lam);
                    R::lemma_add_neg(a);
                    R::lemma_mul_zero(lam);
                    assert forall|k: int| 0 <= k < c && k != r implies #[trigger] self.at(r2 as int, k) == sm.at(
                        r2 as int,
                        k,
                    ) by {
                        assert(sm.at(r as int, k) == R::zero_spec());
                        R::lemma_add_zero(sm.at(r2 as int, k));
                    }
                    assert(self.at(r2 as int, r as int) == R::zero_spec());
                }
                r2 = r2 + 1;
            }
        }
    }

    /// Solves `self * x == rhs` in place by Gauss-Jordan elimination with row
    /// exchanges: the same row operations are applied to `self` and `rhs`.
    ///
    /// Whatever the outcome, the transformed system has exactly the solutions
    /// of the original one, and the transformed matrix the same kernel. The
    /// result is `Ok` exactly when the matrix is nonsingular (only the zero
    /// vector is in its kernel); `self` is then the identity and `rhs` holds
    /// the solution, which is the only one. Otherwise the result is
    /// `Err(SolveError::Singular)`, and `self` is left with the identity's
    /// first columns up to a column that is zero on and below the diagonal.
    /// A matrix with an all-zero row always gives that error.
    pub fn solve(&mut self, rhs: &mut Matrix<R>) -> (r: Result<(), SolveError>)
        requires
            old(self).wf(),
            old(rhs).wf(),
            old(self).rows_spec() == old(self).cols_spec(),
            old(rhs).rows_spec() == old(self).rows_spec(),
        ensures
            final(self).wf(),
            final(rhs).wf(),
            final(self).rows_spec() == old(self).rows_spec(),
            final(self).cols_spec() == old(self).cols_spec(),
            final(rhs).rows_spec() == old(rhs).rows_spec(),
            final(rhs).cols_spec() == old(rhs).cols_spec(),
            forall|x: spec_fn(int, int) -> R| #[trigger] solves(*final(self), *final(rhs), x) <==> solves(
                *old(self),
                *old(rhs),
                x,
            ),
            r is Ok ==> forall|y: int, x: int|
                0 <= y < old(self).rows_spec() && 0 <= x < old(self).cols_spec() ==> #[trigger] final(self).at(y, x)
                    == id_at::<R>(y, x),
            r is Ok ==> forall|x: spec_fn(int, int) -> R| #[trigger] solves(*old(self), *old(rhs), x) <==> agrees(
                x,
                *final(rhs),
            ),
            r is Ok ==> forall|i: int, j: int|
                0 <= i < old(rhs).rows_spec() && 0 <= j < old(rhs).cols_spec() ==> #[trigger] dot(
                    *old(self),
                    *final(rhs),
                    i,
                    j,
                ) == old(rhs).at(i, j),
            forall|z: spec_fn(int) -> R| #[trigger] kills(*final(self), z) <==> kills(*old(self), z),
            r is Ok ==> trivial_kernel(*old(self)),
            r is Err ==> !trivial_kernel(*old(self)),
            r is Err ==> exists|c: int| #[trigger] stalls_at(*final(self), c),
            forall|i: int| 0 <= i < old(self).rows_spec() && #[trigger] zero_row(*old(self), i) ==> r is Err,
    {
        let n = self.height;
        let ghost m0 = *self;
        let ghost b0 = *rhs;
        let zero = R::zero();
        let ghost has_zero_row = exists|i: int| 0 <= i < n && #[trigger] zero_row(m0, i);
        let ghost i0 = choose|i: int| 0 <= i < n && #[trigger] zero_row(m0, i);
        let ghost mut c: spec_fn(int) -> R = |k: int| id_at::<R>(i0, k);
        proof {
            if has_zero_row {
                assert forall|t: int| 0 <= t < n implies #[trigger] lin(c, col_of(m0, t), n as nat) == R::zero_spec() by {
                    lemma_lin_unit_left(c, col_of(m0, t), i0, n as nat);
                }
                R::lemma_one_ne_zero();
                assert(c(i0) != R::zero_spec());
            }
        }
        let mut r: usize = 0;
        while r < n
            invariant
                self.wf(),
                rhs.wf(),
                n == m0.rows_spec(),
                m0 == *old(self),
                b0 == *old(rhs),
                self.rows_spec() == n,
                self.cols_spec() == n,
                rhs.rows_spec() == n,
                rhs.cols_spec() == b0.cols_spec(),
                b0.rows_spec() == n,
                m0.cols_spec() == n,
                zero == R::zero_spec(),
                r <= n,
                forall|x: spec_fn(int, int) -> R| #[trigger] solves(*self, *rhs, x) <==> solves(m0, b0, x),
                has_zero_row ==> dependent(*self, c),
                forall|z: spec_fn(int) -> R| #[trigger] kills(*self, z) <==> kills(m0, z),
                forall|k: int| 0 <= k < r ==> #[trigger] self.at(k, k) == R::one_spec(),
                forall|i: int, k: int| 0 <= k < r && k < i < n ==> #[trigger] self.at(i, k) == R::zero_spec(),
            decreases n - r,
        {
            let mut p: usize = r;
            let mut found: bool = false;
            while p < n && !found
                invariant
                    self.wf(),
                    self.rows_spec() == n,
                    self.cols_spec() == n,
                    zero == R::zero_spec(),
                    r < n,
                    r <= p <= n,
                    found ==> p < n && self.at(p as int, r as int) != R::zero_spec(),
                    has_zero_row ==> dependent(*self, c),
                    forall|z: spec_fn(int) -> R| #[trigger] kills(*self, z) <==> kills(m0, z),
                    !found ==> forall|i: int| r <= i < p ==> #[trigger] self.at(i, r as int) == R::zero_spec(),
                decreases n - p + (if found { 0int } else { 1int }),
            {
                if self.get(p, r).unwrap().equals(&zero) {
                    p = p + 1;
                } else {
                    found = true;
                }
            }
            if !found {
                proof {
                    assert(stalls_at(*self, r as int));
                }
                let ghost sm = *self;
                let ghost sb = *rhs;
                self.clear_above(rhs, r);
                proof {
                    lemma_stalled_kernel(*self, r as int);
                    let z = kernel_vec(*self, r as int);
                    assert(kills(m0, z));
                    R::lemma_one_ne_zero();
                    assert(z(r as int) != R::zero_spec());
                    assert(stalls_at(*self, r as int));
                }
                return Err(SolveError::Singular);
            }
            if p != r {
                let ghost sm = *self;
                let ghost sb = *rhs;
                self.swap_rows(r, p);
                rhs.swap_rows(r, p);
                proof {
                    lemma_swap_equiv(sm, sb, *self, *rhs, r as int, p as int);
                    if has_zero_row {
                        lemma_swap_dependent(sm, *self, r as int, p as int, c);
                    }
                    lemma_swap_kills(sm, *self, r as int, p as int);
                    c = swap_weights(c, r as int, p as int);
                }
            }
            let piv = *self.get(r, r).unwrap();
            let lam = piv.mul_inv();
            let ghost sm = *self;
            let ghost sb = *rhs;
            self.mul_row(r, lam);
            rhs.mul_row(r, lam);
            proof {
                lemma_mul_row_equiv(sm, sb, *self, *rhs, r as int, piv);
                if has_zero_row {
                    lemma_scale_dependent(sm, *self, r as int, piv, c);
                }
                lemma_mul_row_kills(sm, *self, r as int, piv);
                c = scale_weight(c, r as int, piv);
                R::lemma_mul_inv(piv);
                assert forall|i: int, k: int| 0 <= k < r + 1 && k < i < n && k < r implies #[trigger] self.at(i, k)
                    == R::zero_spec() by {
                    R::lemma_mul_zero(lam);
                }
            }
            let mut r2: usize = r + 1;
            while r2 < n
                invariant
                    self.wf(),
                    rhs.wf(),
                    n == m0.rows_spec(),
                    self.rows_spec() == n,
                    self.cols_spec() == n,
                    rhs.rows_spec() == n,
                    rhs.cols_spec() == b0.cols_spec(),
                    b0.rows_spec() == n,
                    m0.cols_spec() == n,
                    r < n,
                    r + 1 <= r2 <= n,
                    forall|x: spec_fn(int, int) -> R| #[trigger] solves(*self, *rhs, x) <==> solves(m0, b0, x),
                    has_zero_row ==> dependent(*self, c),
                    forall|z: spec_fn(int) -> R| #[trigger] kills(*self, z) <==> kills(m0, z),
                    forall|k: int| 0 <= k <= r ==> #[trigger] self.at(k, k) == R::one_spec(),
                    forall|i: int, k: int| 0 <= k < r && k < i < n ==> #[trigger] self.at(i, k) == R::zero_spec(),
                    forall|i: int| r < i < r2 ==> #[trigger] self.at(i, r as int) == R::zero_spec(),
                decreases n - r2,
            {
                let a = *self.get(r2, r).unwrap();
                let lam = a.negate();
                let ghost sm = *self;
                let ghost sb = *rhs;
                self.add_row(r, r2, lam);
                rhs.add_row(r, r2, lam);
                proof {
                    lemma_add_row_equiv(sm, sb, *self, *rhs, r as int, r2 as int, lam);
                    if has_zero_row {
                        lemma_shift_dependent(sm, *self, r as int, r2 as int, lam, c);
                    }
                    lemma_add_row_kills(sm, *self, r as int, r2 as int, lam);
                    c = shift_weight(c, r as int, r2 as int, lam);
                    R::lemma_mul_one(lam);
                    R::lemma_add_neg(a);
                    R::lemma_mul_zero(lam);
                    R::lemma_add_zero(R::zero_spec());
                    assert(self.at(r2 as int, r as int) == R::zero_spec());
                    assert forall|i: int, k: int| 0 <= k < r && k < i < n implies #[trigger] self.at(i, k)
                        == R::zero_spec() by {
                        assert(sm.at(r as int, k) == R::zero_spec());
                    }
                }
                r2 = r2 + 1;
            }
            r = r + 1;
        }
        let mut r: usize = n;
        while r > 0
            invariant
                self.wf(),
                rhs.wf(),
                n == m0.rows_spec(),
                self.rows_spec() == n,
                self.cols_spec() == n,
                rhs.rows_spec() == n,
                rhs.cols_spec() == b0.cols_spec(),
                b0.rows_spec() == n,
                m0.cols_spec() == n,
                r <= n,
                forall|x: spec_fn(int, int) -> R| #[trigger] solves(*self, *rhs, x) <==> solves(m0, b0, x),
                has_zero_row ==> dependent(*self, c),
                forall|z: spec_fn(int) -> R| #[trigger] kills(*self, z) <==> kills(m0, z),
                forall|k: int| 0 <= k < n ==> #[trigger] self.at(k, k) == R::one_spec(),
                forall|i: int, k: int| 0 <= k < n && k < i < n ==> #[trigger] self.at(i, k) == R::zero_spec(),
                forall|i: int, k: int| r <= k < n && 0 <= i < k ==> #[trigger] self.at(i, k) == R::zero_spec(),
            decreases r,
        {
            r = r - 1;
            let mut r2: usize = 0;
            while r2 < r
                invariant
                    self.wf(),
                    rhs.wf(),
                    n == m0.rows_spec(),
                    self.rows_spec() == n,
                    self.cols_spec() == n,
                    rhs.rows_spec() == n,
                    rhs.cols_spec() == b0.cols_spec(),
                    b0.rows_spec() == n,
                    m0.cols_spec() == n,
                    r < n,
                    r2 <= r,
                    forall|x: spec_fn(int, int) -> R| #[trigger] solves(*self, *rhs, x) <==> solves(m0, b0, x),
                    has_zero_row ==> dependent(*self, c),
                    forall|z: spec_fn(int) -> R| #[trigger] kills(*self, z) <==> kills(m0, z),
                    forall|k: int| 0 <= k < n ==> #[trigger] self.at(k, k) == R::one_spec(),
                    forall|i: int, k: int| 0 <= k < n && k < i < n ==> #[trigger] self.at(i, k) == R::zero_spec(),
                    forall|i: int, k: int| r < k < n && 0 <= i < k ==> #[trigger] self.at(i, k) == R::zero_spec(),
                    forall|i: int| 0 <= i < r2 ==> #[trigger] self.at(i, r as int) == R::zero_spec(),
                decreases r - r2,
            {
                let a = *self.get(r2, r).unwrap();
                let lam = a.negate();
                let ghost sm = *self;
                let ghost sb = *rhs;
                self.add_row(r, r2, lam);
                rhs.add_row(r, r2, lam);
                proof {
                    lemma_add_row_equiv(sm, sb, *self, *rhs, r as int, r2 as int, lam);
                    if has_zero_row {
                        lemma_shift_dependent(sm, *self, r as int, r2 as int, lam, c);
                    }
                    lemma_add_row_kills(sm, *self, r as int, r2 as int, lam);
                    c = shift_weight(c, r as int, r2 as int, lam);
                    R::lemma_mul_one(lam);
                    R::lemma_add_neg(a);
                    R::lemma_mul_zero(lam);
                    assert forall|k: int| 0 <= k < n && k != r implies #[trigger] self.at(r2 as int, k) == sm.at(
                        r2 as int,
                        k,
                    ) by {
                        assert(sm.at(r as int, k) == R::zero_spec());
                        R::lemma_add_zero(sm.at(r2 as int, k));
                    }
                    assert(self.at(r2 as int, r as int) == R::zero_spec());
                }
                r2 = r2 + 1;
            }
        }
        proof {
            let fb = *rhs;
            let xb = |t: int, j: int| fb.at(t, j);
            assert forall|i: int, j: int| 0 <= i < fb.rows_spec() && 0 <= j < fb.cols_spec() implies lin(
                row_of(*self, i),
                col_fn(xb, j),
                n as nat,
            ) == #[trigger] fb.at(i, j) by {
                lemma_lin_unit_left(row_of(*self, i), col_fn(xb, j), i, n as nat);
            }
            assert(solves(*self, fb, xb));
            assert(solves(m0, b0, xb));
            assert forall|i: int, j: int| 0 <= i < n && 0 <= j < fb.cols_spec() implies #[trigger] dot(m0, fb, i, j)
                == b0.at(i, j) by {
                lemma_lin_ext(row_of(m0, i), row_of(m0, i), col_fn(xb, j), col_of(fb, j), n as nat);
            }
            assert forall|x: spec_fn(int, int) -> R| #[trigger] solves(*self, fb, x) <==> agrees(x, fb) by {
                assert forall|i: int, j: int| 0 <= i < n && 0 <= j < fb.cols_spec() implies #[trigger] lin(
                    row_of(*self, i),
                    col_fn(x, j),
                    n as nat,
                ) == x(i, j) by {
                    lemma_lin_unit_left(row_of(*self, i), col_fn(x, j), i, n as nat);
                }
            }
            assert forall|z: spec_fn(int) -> R| #[trigger] kills(m0, z) implies forall|t: int|
                0 <= t < n ==> #[trigger] z(t) == R::zero_spec() by {
                assert(kills(*self, z));
                assert forall|t: int| 0 <= t < n implies #[trigger] z(t) == R::zero_spec() by {
                    assert(lin(row_of(*self, t), z, n as nat) == R::zero_spec());
                    lemma_lin_unit_left(row_of(*self, t), z, t, n as nat);
                }
            }
            assert forall|x: spec_fn(int, int) -> R| #[trigger] solves(m0, b0, x) <==> agrees(x, fb) by {
                assert(solves(*self, fb, x) <==> agrees(x, fb));
            }
            if has_zero_row {
                assert forall|t: int| 0 <= t < n implies #[trigger] c(t) == R::zero_spec() by {
                    assert(lin(c, col_of(*self, t), n as nat) == R::zero_spec());
                    lemma_lin_unit_right(c, col_of(*self, t), t, n as nat);
                }
                assert(false);
            }
        }
        Ok(())
    }
}

} // verus!
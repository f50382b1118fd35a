use vstd::prelude::*;

use crate::mat::{col_of, dot, id_at, row_of, Matrix};
use crate::ring::Ring;
use crate::sum::{lemma_lin_exchange, lemma_lin_ext, lemma_lin_unit_left, lemma_lin_unit_right, lin};

verus! {

/// Transposing twice gives back the matrix: if `t` is the transpose of `m`
/// and `tt` the transpose of `t`, then `tt == m`.
pub proof fn lemma_transpose_twice<A>(m: Matrix<A>, t: Matrix<A>, tt: Matrix<A>)
    requires
        m.wf(),
        t.wf(),
        tt.wf(),
        t.rows_spec() == m.cols_spec(),
        t.cols_spec() == m.rows_spec(),
        forall|y: int, x: int|
            0 <= y < m.cols_spec() && 0 <= x < m.rows_spec() ==> #[trigger] t.at(y, x) == m.at(x, y),
        tt.rows_spec() == t.cols_spec(),
        tt.cols_spec() == t.rows_spec(),
        forall|y: int, x: int|
            0 <= y < t.cols_spec() && 0 <= x < t.rows_spec() ==> #[trigger] tt.at(y, x) == t.at(x, y),
    ensures
        tt.equal_to(&m),
{
    assert forall|y: int, x: int| 0 <= y < tt.rows_spec() && 0 <= x < tt.cols_spec() implies #[trigger] tt.at(y, x)
        == m.at(y, x) by {
        assert(t.at(x, y) == m.at(y, x));
    }
    tt.lemma_equal_to_elements(&m);
}

/// The identity is a left unit: if `e` is the identity of size `m.height()`
/// and `p` is the product `e * m`, then `p == m`.
pub proof fn lemma_id_mul<R: Ring>(e: Matrix<R>, m: Matrix<R>, p: Matrix<R>)
    requires
        e.wf(),
        m.wf(),
        p.wf(),
        e.rows_spec() == m.rows_spec(),
        e.cols_spec() == m.rows_spec(),
        forall|y: int, x: int|
            0 <= y < e.rows_spec() && 0 <= x < e.cols_spec() ==> #[trigger] e.at(y, x) == id_at::<R>(y, x),
        p.rows_spec() == e.rows_spec(),
        p.cols_spec() == m.cols_spec(),
        forall|i: int, j: int|
            0 <= i < e.rows_spec() && 0 <= j < m.cols_spec() ==> #[trigger] p.at(i, j) == dot(e, m, i, j),
    ensures
        p.equal_to(&m),
{
    assert forall|i: int, j: int| 0 <= i < p.rows_spec() && 0 <= j < p.cols_spec() implies #[trigger] p.at(i, j)
        == m.at(i, j) by {
        assert(p.at(i, j) == dot(e, m, i, j));
        lemma_lin_unit_left(row_of(e, i), col_of(m, j), i, e.cols_spec());
    }
    p.lemma_equal_to_elements(&m);
}

/// The identity is a right unit: if `e` is the identity of size `m.width()`
/// and `p` is the product `m * e`, then `p == m`.
pub proof fn lemma_mul_id<R: Ring>(m: Matrix<R>, e: Matrix<R>, p: Matrix<R>)
    requires
        e.wf(),
        m.wf(),
        p.wf(),
        e.rows_spec() == m.cols_spec(),
        e.cols_spec() == m.cols_spec(),
        forall|y: int, x: int|
            0 <= y < e.rows_spec() && 0 <= x < e.cols_spec() ==> #[trigger] e.at(y, x) == id_at::<R>(y, x),
        p.rows_spec() == m.rows_spec(),
        p.cols_spec() == e.cols_spec(),
        forall|i: int, j: int|
            0 <= i < m.rows_spec() && 0 <= j < e.cols_spec() ==> #[trigger] p.at(i, j) == dot(m, e, i, j),
    ensures
        p.equal_to(&m),
{
    assert forall|i: int, j: int| 0 <= i < p.rows_spec() && 0 <= j < p.cols_spec() implies #[trigger] p.at(i, j)
        == m.at(i, j) by {
        assert(p.at(i, j) == dot(m, e, i, j));
        lemma_lin_unit_right(row_of(m, i), col_of(e, j), j, m.cols_spec());
    }
    p.lemma_equal_to_elements(&m);
}

/// Matrix multiplication is associative: with `ab == a * b`, `bc == b * c`,
/// `ab_c == ab * c` and `a_bc == a * bc`, `ab_c == a_bc`.
pub proof fn lemma_mul_assoc<R: Ring>(
    a: Matrix<R>,
    b: Matrix<R>,
    c: Matrix<R>,
    ab: Matrix<R>,
    bc: Matrix<R>,
    ab_c: Matrix<R>,
    a_bc: Matrix<R>,
)
    requires
        ab_c.wf(),
        a_bc.wf(),
        a.cols_spec() == b.rows_spec(),
        b.cols_spec() == c.rows_spec(),
        ab.rows_spec() == a.rows_spec(),
        ab.cols_spec() == b.cols_spec(),
        forall|i: int, j: int|
            0 <= i < a.rows_spec() && 0 <= j < b.cols_spec() ==> #[trigger] ab.at(i, j) == dot(a, b, i, j),
        bc.rows_spec() == b.rows_spec(),
        bc.cols_spec() == c.cols_spec(),
        forall|i: int, j: int|
            0 <= i < b.rows_spec() && 0 <= j < c.cols_spec() ==> #[trigger] bc.at(i, j) == dot(b, c, i, j),
        ab_c.rows_spec() == a.rows_spec(),
        ab_c.cols_spec() == c.cols_spec(),
        forall|i: int, j: int|
            0 <= i < a.rows_spec() && 0 <= j < c.cols_spec() ==> #[trigger] ab_c.at(i, j) == dot(ab, c, i, j),
        a_bc.rows_spec() == a.rows_spec(),
        a_bc.cols_spec() == c.cols_spec(),
        forall|i: int, j: int|
            0 <= i < a.rows_spec() && 0 <= j < c.cols_spec() ==> #[trigger] a_bc.at(i, j) == dot(a, bc, i, j),
    ensures
        ab_c.equal_to(&a_bc),
{
    let m = a.cols_spec();
    let p = b.cols_spec();
    let bf = |l: int, k: int| b.at(l, k);
    assert forall|i: int, j: int| 0 <= i < ab_c.rows_spec() && 0 <= j < ab_c.cols_spec() implies #[trigger] ab_c.at(
        i,
        j,
    ) == a_bc.at(i, j) by {
        let x = row_of(a, i);
        let cf = col_of(c, j);
        let outer = |k: int| lin(x, |l: int| bf(l, k), m);
        let inner = |l: int| lin(|k: int| bf(l, k), cf, p);
        assert forall|k: int| 0 <= k < p implies #[trigger] row_of(ab, i)(k) == outer(k) by {
            lemma_lin_ext(x, x, col_of(b, k), |l: int| bf(l, k), m);
        }
        lemma_lin_ext(row_of(ab, i), outer, cf, cf, p);
        assert forall|l: int| 0 <= l < m implies #[trigger] col_of(bc, j)(l) == inner(l) by {
            lemma_lin_ext(row_of(b, l), |k: int| bf(l, k), cf, cf, p);
        }
        lemma_lin_ext(x, x, col_of(bc, j), inner, m);
        lemma_lin_exchange(x, bf, cf, m, p);
    }
    ab_c.lemma_equal_to_elements(&a_bc);
}

} // verus!

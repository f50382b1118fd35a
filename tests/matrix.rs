use matfit::mat::SolveError;
use matfit::{Gf2, Matrix, Ring};

fn g(bit: bool) -> Gf2 {
    Gf2 { bit }
}

fn gf2_matrix(rows: Vec<Vec<u8>>) -> Matrix<Gf2> {
    let h = rows.len();
    let w = if h == 0 { 0 } else { rows[0].len() };
    Matrix::by_pos(h, w, |y, x| g(rows[y][x] == 1))
}

#[test]
fn by_pos_shape_and_elements() {
    let m = Matrix::by_pos(3, 4, |y, x| 10 * y + x);
    assert_eq!(m.height(), 3);
    assert_eq!(m.width(), 4);
    for y in 0..3 {
        for x in 0..4 {
            assert_eq!(*m.get(y, x).unwrap(), 10 * y + x);
        }
    }
    assert_eq!(m.get(3, 0), None);
    assert_eq!(m.get(0, 4), None);
}

#[test]
fn by_pos_row_major_order() {
    let m = Matrix::by_pos(2, 3, |y, x| 10 * y + x);
    assert_eq!(m.data_slice(), &[0, 1, 2, 10, 11, 12]);
}

#[test]
fn empty_shapes() {
    let m = Matrix::filled(0, 5, 1u8);
    assert_eq!(m.height(), 0);
    assert_eq!(m.width(), 5);
    assert!(m.data_slice().is_empty());
    let n = Matrix::filled(4, 0, 1u8);
    assert_eq!(n.height(), 4);
    assert_eq!(n.width(), 0);
    assert_eq!(n.get(0, 0), None);
}

#[test]
fn filled_every_cell() {
    let m = Matrix::filled(2, 3, 7i32);
    assert_eq!(m.data_slice(), &[7, 7, 7, 7, 7, 7]);
}

#[test]
fn transpose_swaps_indices() {
    let m = Matrix::by_pos(2, 3, |y, x| 10 * y + x);
    let t = m.transpose();
    assert_eq!(t.height(), 3);
    assert_eq!(t.width(), 2);
    for y in 0..2 {
        for x in 0..3 {
            assert_eq!(t.get(x, y), m.get(y, x));
        }
    }
    assert_eq!(t.data_slice(), &[0, 10, 1, 11, 2, 12]);
}

#[test]
fn transpose_twice_is_identity() {
    let m = gf2_matrix(vec![vec![1, 0, 1], vec![0, 0, 1]]);
    assert!(m.transpose().transpose() == m);
    assert!(m.transpose() != m);
}

#[test]
fn rows_and_cols() {
    let m = Matrix::by_pos(2, 3, |y, x| 10 * y + x);
    let rows = m.rows();
    assert_eq!(rows.len(), 2);
    assert_eq!(rows[0], &[0, 1, 2]);
    assert_eq!(rows[1], &[10, 11, 12]);
    let cols = m.cols();
    assert_eq!(cols, vec![vec![0, 10], vec![1, 11], vec![2, 12]]);
}

#[test]
fn map_keeps_shape() {
    let m = Matrix::by_pos(2, 2, |y, x| y + x);
    let s = m.map(|e| format!("<{}>", e));
    assert_eq!(s.height(), 2);
    assert_eq!(s.width(), 2);
    assert_eq!(s.get(1, 1).unwrap(), "<2>");
    assert_eq!(s.get(0, 1).unwrap(), "<1>");
}

#[test]
fn get_mut_updates_one_cell() {
    let mut m = Matrix::filled(2, 2, 0i64);
    *m.get_mut(1, 0).unwrap() = 5;
    assert_eq!(m.data_slice(), &[0, 0, 5, 0]);
    assert!(m.get_mut(2, 0).is_none());
    assert!(m.get_mut(0, 2).is_none());
}

#[test]
fn gf2_ring_operations() {
    assert_eq!(Gf2::zero(), g(false));
    assert_eq!(Gf2::one(), g(true));
    assert_eq!(g(true).plus(&g(true)), g(false));
    assert_eq!(g(true).plus(&g(false)), g(true));
    assert_eq!(g(true).times(&g(false)), g(false));
    assert_eq!(g(true).times(&g(true)), g(true));
    assert_eq!(g(true).negate(), g(true));
    assert_eq!(g(true).mul_inv(), g(true));
    assert!(g(false).equals(&g(false)));
    assert!(!g(false).equals(&g(true)));
}

#[test]
fn identity_matrix() {
    let e = Matrix::<Gf2>::id(3);
    assert_eq!(e.height(), 3);
    assert_eq!(e.width(), 3);
    for y in 0..3 {
        for x in 0..3 {
            assert_eq!(*e.get(y, x).unwrap(), g(x == y));
        }
    }
}

#[test]
fn identity_law() {
    let m = gf2_matrix(vec![vec![1, 0, 1], vec![1, 1, 0]]);
    assert!(Matrix::id(2).mul(&m) == m);
    assert!(m.mul(&Matrix::id(3)) == m);
}

#[test]
fn add_elementwise() {
    let a = gf2_matrix(vec![vec![1, 0], vec![1, 1]]);
    let b = gf2_matrix(vec![vec![1, 1], vec![0, 1]]);
    assert!(a.add(&b) == gf2_matrix(vec![vec![0, 1], vec![1, 0]]));
}

#[test]
fn mul_exact_values() {
    let a = gf2_matrix(vec![vec![1, 1, 0], vec![0, 1, 1]]);
    let b = gf2_matrix(vec![vec![1, 0], vec![1, 1], vec![0, 1]]);
    let p = a.mul(&b);
    assert_eq!(p.height(), 2);
    assert_eq!(p.width(), 2);
    assert!(p == gf2_matrix(vec![vec![0, 1], vec![1, 0]]));
}

#[test]
fn mul_associative() {
    let a = gf2_matrix(vec![vec![1, 1], vec![0, 1], vec![1, 0]]);
    let b = gf2_matrix(vec![vec![1, 0, 1], vec![1, 1, 0]]);
    let c = gf2_matrix(vec![vec![0, 1], vec![1, 1], vec![1, 0]]);
    assert!(a.mul(&b).mul(&c) == a.mul(&b.mul(&c)));
}

#[test]
fn solve_upper_triangular() {
    let mut m = gf2_matrix(vec![vec![1, 1], vec![0, 1]]);
    let mut b = gf2_matrix(vec![vec![1], vec![1]]);
    assert_eq!(m.solve(&mut b), Ok(()));
    assert!(m == Matrix::id(2));
    assert!(b == gf2_matrix(vec![vec![0], vec![1]]));
}

#[test]
fn solve_with_row_exchange() {
    let orig = gf2_matrix(vec![vec![0, 1, 1], vec![1, 1, 0], vec![1, 0, 0]]);
    let rhs = gf2_matrix(vec![vec![1, 0], vec![0, 1], vec![1, 1]]);
    let mut m = orig.clone();
    let mut b = rhs.clone();
    assert_eq!(m.solve(&mut b), Ok(()));
    assert!(m == Matrix::id(3));
    assert!(orig.mul(&b) == rhs);
    assert!(b == gf2_matrix(vec![vec![1, 1], vec![1, 0], vec![0, 0]]));
}

#[test]
fn solve_zero_row_is_singular() {
    let mut m = gf2_matrix(vec![vec![1, 0], vec![0, 0]]);
    let mut b = gf2_matrix(vec![vec![1], vec![1]]);
    assert_eq!(m.solve(&mut b), Err(SolveError::Singular));
    let mut m = gf2_matrix(vec![vec![1, 1], vec![0, 0]]);
    let mut b = gf2_matrix(vec![vec![1], vec![0]]);
    assert_eq!(m.solve(&mut b), Err(SolveError::Singular));
}

#[test]
fn solve_dependent_rows_is_singular() {
    let mut m = gf2_matrix(vec![vec![1, 1], vec![1, 1]]);
    let mut b = gf2_matrix(vec![vec![1], vec![1]]);
    assert_eq!(m.solve(&mut b), Err(SolveError::Singular));
}

#[test]
fn solve_empty_system() {
    let mut m = Matrix::<Gf2>::id(0);
    let mut b = Matrix::filled(0, 2, g(true));
    assert_eq!(m.solve(&mut b), Ok(()));
}

#[test]
fn equality_by_shape_and_elements() {
    let a = Matrix::by_pos(2, 3, |y, x| g((y + x) % 2 == 0));
    let b = Matrix::by_pos(2, 3, |y, x| g((y + x) % 2 == 0));
    assert!(a == b);
    let zeros_wide = Matrix::filled(1, 4, g(false));
    let zeros_tall = Matrix::filled(4, 1, g(false));
    assert!(zeros_wide != zeros_tall);
    let zeros_short = Matrix::filled(1, 3, g(false));
    assert!(zeros_wide != zeros_short);
    let c = Matrix::by_pos(2, 3, |y, x| g(y == x));
    assert!(a != c);
}

#[test]
fn render_aligns_columns() {
    let cells = Matrix::by_pos(2, 2, |y, x| ["1", "22", "333", "4"][2 * y + x].to_string());
    assert_eq!(matfit::render::render(&cells), "[  1 22]\n[333  4]\n");
}

#[test]
fn render_counts_bytes() {
    let cells = Matrix::by_pos(2, 1, |y, _| ["é", "abc"][y].to_string());
    assert_eq!(matfit::render::render(&cells), "[ é]\n[abc]\n");
}

#[test]
fn render_empty_matrix() {
    let cells = Matrix::by_pos(0, 3, |_, _| String::new());
    assert_eq!(matfit::render::render(&cells), "");
    let cells = Matrix::by_pos(2, 0, |_, _| String::new());
    assert_eq!(matfit::render::render(&cells), "[]\n[]\n");
}

#[test]
fn render_of_mapped_matrix() {
    let m = Matrix::by_pos(2, 2, |y, x| (y * 10 + x) as i64 - 5);
    let cells = m.map(|e| format!("{}", e));
    assert_eq!(matfit::render::render(&cells), "[-5 -4]\n[ 5  6]\n");
}

#[test]
fn row_mut_changes_only_that_row() {
    let mut m = Matrix::by_pos(3, 2, |y, x| 10 * y + x);
    let row = m.row_mut(1);
    assert_eq!(row, &[10, 11]);
    row[0] = 99;
    row[1] = 98;
    assert_eq!(m.data_slice(), &[0, 1, 99, 98, 20, 21]);
}

#[test]
fn get_mut_then_get_reads_written_value() {
    let mut m = Matrix::by_pos(2, 3, |y, x| 10 * y + x);
    *m.get_mut(1, 2).unwrap() = 7;
    assert_eq!(m.get(1, 2), Some(&7));
    assert_eq!(m.get(0, 2), Some(&2));
    assert_eq!(m.get(1, 1), Some(&11));
}

#[test]
fn row_mut_then_get_reads_written_row() {
    let mut m = Matrix::filled(2, 2, g(false));
    let row = m.row_mut(0);
    row[1] = g(true);
    assert_eq!(m.get(0, 1), Some(&g(true)));
    assert_eq!(m.get(1, 1), Some(&g(false)));
}

#[test]
fn rows_are_slices_of_the_buffer() {
    let m = Matrix::by_pos(3, 2, |y, x| 10 * y + x);
    let data = m.data_slice();
    for (y, row) in m.rows().iter().enumerate() {
        assert_eq!(*row, &data[y * 2..(y + 1) * 2]);
    }
}

#[test]
fn solve_singular_leaves_identity_columns_before_stall() {
    let mut m = gf2_matrix(vec![vec![1, 1, 0], vec![0, 1, 1], vec![1, 0, 1]]);
    let mut b = gf2_matrix(vec![vec![1], vec![0], vec![1]]);
    assert_eq!(m.solve(&mut b), Err(SolveError::Singular));
    assert!(m == gf2_matrix(vec![vec![1, 0, 1], vec![0, 1, 1], vec![0, 0, 0]]));
}

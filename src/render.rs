use vstd::prelude::*;
use vstd::string::StringExecFns;

use crate::mat::Matrix;

verus! {

/// Number of bytes in the UTF-8 encoding of `s`, as `str::len` reports it.
pub open spec fn byte_len(s: Seq<char>) -> nat {
    (vstd::utf8::encode_utf8(s).len() as usize) as nat
}

/// `s` preceded by enough spaces to fill `w` bytes.
pub open spec fn pad_left(s: Seq<char>, w: nat) -> Seq<char> {
    Seq::new((w - byte_len(s)) as nat, |i: int| ' ') + s
}

/// The largest byte length among the first `k` cells of column `x`.
pub open spec fn col_width(cells: Matrix<String>, x: int, k: nat) -> nat
    decreases k,
{
    if k == 0 {
        0
    } else {
        let w = col_width(cells, x, (k - 1) as nat);
        let b = byte_len(cells.at(k - 1, x)@);
        if b > w {
            b
        } else {
            w
        }
    }
}

/// The first `k` cells of row `y`, each padded to its column's width and
/// separated by one space.
pub open spec fn row_text(cells: Matrix<String>, y: int, k: nat) -> Seq<char>
    decreases k,
{
    if k == 0 {
        Seq::empty()
    } else {
        let sep = if k == 1 { Seq::empty() } else { seq![' '] };
        row_text(cells, y, (k - 1) as nat) + sep + pad_left(
            cells.at(y, k - 1)@,
            col_width(cells, k - 1, cells.rows_spec()),
        )
    }
}

/// The first `k` rows, each as `[`, its cells, `]` and a line break.
pub open spec fn grid_text(cells: Matrix<String>, k: nat) -> Seq<char>
    decreases k,
{
    if k == 0 {
        Seq::empty()
    } else {
        grid_text(cells, (k - 1) as nat) + seq!['['] + row_text(cells, k - 1, cells.cols_spec()) + seq![']', '\n']
    }
}

/// Lays out already rendered cells as an aligned text grid: one line per row
/// in brackets, each cell right-aligned to the widest cell of its column.
pub fn render(cells: &Matrix<String>) -> (r: String)
    requires
        cells.wf(),
    ensures
        r@ == grid_text(*cells, cells.rows_spec()),
{
    let h = cells.height();
    let w = cells.width();
    let mut widths: Vec<usize> = Vec::new();
    let mut x: usize = 0;
    while x < w
        invariant
            cells.wf(),
            h == cells.rows_spec(),
            w == cells.cols_spec(),
            x <= w,
            widths@.len() == x,
            forall|k: int| 0 <= k < x ==> #[trigger] widths@[k] == col_width(*cells, k, h as nat),
        decreases w - x,
    {
        let mut m: usize = 0;
        let mut y: usize = 0;
        while y < h
            invariant
                cells.wf(),
                h == cells.rows_spec(),
                w == cells.cols_spec(),
                x < w,
                y <= h,
                m == col_width(*cells, x as int, y as nat),
            decreases h - y,
        {
            let c = cells.get(y, x).unwrap();
            let cs = c.as_str();
            let b = cs.len();
            proof {
                assert(cs@ == cells.at(y as int, x as int)@);
                assert(b == byte_len(cs@));
            }
            if b > m {
                m = b;
            }
            y = y + 1;
        }
        widths.push(m);
        x = x + 1;
    }
    let mut out = String::new();
    let mut y: usize = 0;
    while y < h
        invariant
            cells.wf(),
            h == cells.rows_spec(),
            w == cells.cols_spec(),
            y <= h,
            widths@.len() == w,
            forall|k: int| 0 <= k < w ==> #[trigger] widths@[k] == col_width(*cells, k, h as nat),
            out@ == grid_text(*cells, y as nat),
        decreases h - y,
    {
        proof {
            reveal_strlit("[");
        }
        out.append("[");
        let ghost line_start = out@;
        let mut x: usize = 0;
        while x < w
            invariant
                cells.wf(),
                h == cells.rows_spec(),
                w == cells.cols_spec(),
                y < h,
                x <= w,
                widths@.len() == w,
                forall|k: int| 0 <= k < w ==> #[trigger] widths@[k] == col_width(*cells, k, h as nat),
                out@ == line_start + row_text(*cells, y as int, x as nat),
            decreases w - x,
        {
            let ghost before = out@;
            if x != 0 {
                proof {
                    reveal_strlit(" ");
                }
                out.append(" ");
            }
            let s = cells.get(y, x).unwrap().as_str();
            let b = s.len();
            proof {
                assert(s@ == cells.at(y as int, x as int)@);
                assert(b == byte_len(s@));
            }
            let ghost pad_start = out@;
            let mut i: usize = b;
            while i < widths[x]
                invariant
                    b <= i,
                    x < w,
                    widths@.len() == w,
                    i <= widths@[x as int] || b > widths@[x as int],
                    out@ == pad_start + Seq::new((i - b) as nat, |k: int| ' '),
                decreases widths@[x as int] - i,
            {
                proof {
                    reveal_strlit(" ");
                }
                out.append(" ");
                proof {
                    assert(out@ =~= pad_start + Seq::new((i + 1 - b) as nat, |k: int| ' '));
                }
                i = i + 1;
            }
            out.append(s);
            proof {
                lemma_col_width_bound(*cells, x as int, y as int, h as nat);
                let sep: Seq<char> = if x == 0 { Seq::empty() } else { seq![' '] };
                assert(before + sep == pad_start);
                assert(out@ =~= line_start + row_text(*cells, y as int, (x + 1) as nat));
            }
            x = x + 1;
        }
        proof {
            reveal_strlit("]\n");
        }
        out.append("]\n");
        proof {
            assert(out@ =~= grid_text(*cells, (y + 1) as nat));
        }
        y = y + 1;
    }
    out
}

/// Every cell of a column fits in the column's width.
proof fn lemma_col_width_bound(cells: Matrix<String>, x: int, y: int, k: nat)
    requires
        0 <= y < k,
    ensures
        byte_len(cells.at(y, x)@) <= col_width(cells, x, k),
    decreases k,
{
    if y < k - 1 {
        lemma_col_width_bound(cells, x, y, (k - 1) as nat);
    }
}

} // verus!

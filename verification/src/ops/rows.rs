//! Work done row by row.
use vstd::prelude::*;
use crate::coded::cell;
use crate::grid::lemma_cell_inside;
use crate::tensor::{Tensor, elems, lemma_elems_nonneg};

verus! {

/// `out` is `rows` rows of `cols` values, row `r` being `f(r)`.
pub open spec fn rowwise<T>(out: Seq<T>, rows: int, cols: int, f: spec_fn(int) -> Seq<T>) -> bool {
    &&& out.len() == rows * cols
    &&& forall|r: int, j: int|
        0 <= r < rows && 0 <= j < cols ==> out[#[trigger] cell(cols, r, j)] == f(r)[j]
}

/// No rows yet.
pub proof fn lemma_no_rows<T>(cols: int, f: spec_fn(int) -> Seq<T>)
    ensures
        rowwise(Seq::<T>::empty(), 0, cols, f),
{
    assert(0 * cols == 0) by (nonlinear_arith);
}

/// One row more.
pub proof fn lemma_row_appended<T>(
    out: Seq<T>,
    row: Seq<T>,
    r: int,
    cols: int,
    f: spec_fn(int) -> Seq<T>,
)
    requires
        rowwise(out, r, cols, f),
        row == f(r),
        row.len() == cols,
        0 <= r,
    ensures
        rowwise(out + row, r + 1, cols, f),
{
    assert(r * cols + cols == (r + 1) * cols) by (nonlinear_arith);
    assert forall|q: int, j: int| 0 <= q < r + 1 && 0 <= j < cols implies (out + row)[
        #[trigger] cell(cols, q, j)
    ] == f(q)[j] by {
        if q < r {
            lemma_cell_inside(r, cols, q, j);
        } else {
            assert(cell(cols, q, j) == r * cols + j);
        }
    }
}

/// Rows are settled by what each of them is.
pub proof fn lemma_rows_unique<T>(
    a: Seq<T>,
    b: Seq<T>,
    rows: int,
    cols: int,
    f: spec_fn(int) -> Seq<T>,
    g: spec_fn(int) -> Seq<T>,
)
    requires
        rowwise(a, rows, cols, f),
        rowwise(b, rows, cols, g),
        forall|r: int| 0 <= r < rows ==> #[trigger] f(r) == g(r),
        0 <= rows,
        0 < cols,
    ensures
        a == b,
{
    assert forall|i: int| 0 <= i < a.len() implies a[i] == b[i] by {
        vstd::arithmetic::div_mod::lemma_fundamental_div_mod(i, cols);
        vstd::arithmetic::div_mod::lemma_mod_bound(i, cols);
        let (r, j) = (i / cols, i % cols);
        assert(cols * r == r * cols) by (nonlinear_arith);
        assert(0 <= r < rows) by (nonlinear_arith)
            requires
                0 < cols,
                0 <= i < rows * cols,
                0 <= i - r * cols < cols,
        ;
        assert(i == cell(cols, r, j));
        assert(f(r) == g(r));
    }
    assert(a =~= b);
}

/// How many rows of `cols` a tensor holds, and that they fill it.
pub fn rows_of<T>(t: &Tensor<T>, cols: usize) -> (rows: usize)
    requires
        t.wf(),
        t.dims@.len() > 0,
        cols == t.dims@.last(),
        cols > 0,
    ensures
        rows * cols == t.data@.len(),
        rows == elems(t.dims@.drop_last()),
{
    let total: usize = t.data.len();
    proof {
        let a = elems(t.dims@.drop_last());
        lemma_elems_nonneg(t.dims@.drop_last());
        vstd::arithmetic::div_mod::lemma_div_multiples_vanish(a, cols as int);
        assert(a * cols == cols * a) by (nonlinear_arith);
    }
    total / cols
}

} // verus!

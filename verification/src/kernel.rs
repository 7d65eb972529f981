//! The computations on one region: elementwise addition and a block of
//! rows of a matrix product.

use vstd::arithmetic::div_mod::{lemma_fundamental_div_mod, lemma_fundamental_div_mod_converse};
use vstd::arithmetic::mul::{lemma_mul_inequality, lemma_mul_is_distributive_add_other_way};
use vstd::prelude::*;

use crate::numeric::Numeric;

verus! {

/// The elementwise sum of two sequences of equal length.
pub open spec fn add_seq<T: Numeric>(a: Seq<T>, b: Seq<T>) -> Seq<T> {
    Seq::new(a.len(), |i: int| a[i].spec_plus(b[i]))
}

/// Writes the elementwise sum of two regions into a third.
///
/// Every element of the output is overwritten; nothing else is touched, so
/// calls on disjoint output regions do not affect one another.
pub fn add_vec_slice<T: Numeric>(a: Box<&[T]>, b: Box<&[T]>, c: Box<&mut [T]>)
    requires
        a@.len() == b@.len(),
        a@.len() == c@.len(),
    ensures
        final(*c)@ == add_seq(a@, b@),
{
    let out: &mut [T] = *c;
    let n: usize = a.len();
    let mut i: usize = 0;
    while i < n
        invariant
            n == a@.len(),
            a@.len() == b@.len(),
            a@.len() == out@.len(),
            i <= n,
            forall|j: int| 0 <= j < i ==> out@[j] == a@[j].spec_plus(b@[j]),
        decreases n - i,
    {
        out[i] = a[i].plus(b[i]);
        i += 1;
    }
}

/// The sum of the first `terms` products of row `row` of `a` with column
/// `col` of `b`, accumulated from zero in the order of the inner index. `a`
/// has rows of `k` elements and `b` rows of `n` elements, both row-major.
pub open spec fn dot<T: Numeric>(
    a: Seq<T>,
    b: Seq<T>,
    row: int,
    col: int,
    n: int,
    k: int,
    terms: nat,
) -> T
    decreases terms,
{
    if terms == 0 {
        T::spec_zero()
    } else {
        dot(a, b, row, col, n, k, (terms - 1) as nat).spec_plus(
            a[row * k + (terms - 1)].spec_times(b[(terms - 1) * n + col]),
        )
    }
}

/// The product of an `m` by `k` matrix `a` and a `k` by `n` matrix `b`, as
/// an `m` by `n` matrix; all three row-major.
pub open spec fn matmul_seq<T: Numeric>(a: Seq<T>, b: Seq<T>, m: nat, n: nat, k: nat) -> Seq<T> {
    Seq::new(m * n, |i: int| dot(a, b, i / (n as int), i % (n as int), n as int, k as int, k))
}

/// Where cell (`row`, `col`) of a row-major matrix with `rows` rows of
/// `cols` elements lies in its buffer, and how to get the row and the
/// column back from that place.
pub(crate) proof fn lemma_cell(row: int, col: int, rows: int, cols: int)
    requires
        0 <= row < rows,
        0 <= col < cols,
    ensures
        0 <= row * cols,
        row * cols + col < (row + 1) * cols,
        (row + 1) * cols == row * cols + cols,
        (row + 1) * cols <= rows * cols,
        (row * cols + col) / cols == row,
        (row * cols + col) % cols == col,
{
    lemma_mul_is_distributive_add_other_way(cols, row, 1);
    lemma_mul_inequality(row + 1, rows, cols);
    lemma_fundamental_div_mod_converse(row * cols + col, cols, row, col);
}

/// Cell (`row`, `col`) of a product is the full sum of products of that
/// row of `a` with that column of `b`.
pub proof fn lemma_matmul_cell<T: Numeric>(
    a: Seq<T>,
    b: Seq<T>,
    m: nat,
    n: nat,
    k: nat,
    row: nat,
    col: nat,
)
    requires
        row < m,
        col < n,
    ensures
        matmul_seq(a, b, m, n, k).len() == m * n,
        row * n + col < m * n,
        matmul_seq(a, b, m, n, k)[(row * n + col) as int] == dot(
            a,
            b,
            row as int,
            col as int,
            n as int,
            k as int,
            k,
        ),
{
    lemma_cell(row as int, col as int, m as int, n as int);
}

/// A row of a block of rows of `a` multiplies out as the same row of `a`
/// itself: the block that starts at row `first` has its row `row` at row
/// `first + row` of `a`.
proof fn lemma_dot_block<T: Numeric>(
    a: Seq<T>,
    b: Seq<T>,
    first: int,
    rows: int,
    row: int,
    col: int,
    n: int,
    k: int,
    terms: nat,
)
    requires
        0 <= first,
        0 <= row < rows,
        terms <= k,
        (first + rows) * k <= a.len(),
    ensures
        dot(a.subrange(first * k, (first + rows) * k), b, row, col, n, k, terms) == dot(
            a,
            b,
            first + row,
            col,
            n,
            k,
            terms,
        ),
    decreases terms,
{
    if terms > 0 {
        lemma_dot_block(a, b, first, rows, row, col, n, k, (terms - 1) as nat);
        lemma_cell(row, terms - 1, rows, k);
        lemma_mul_is_distributive_add_other_way(k, first, row);
        lemma_mul_is_distributive_add_other_way(k, first, rows);
    }
}

/// A block of rows of a product is the product of that block of rows of
/// the left-hand matrix with the whole right-hand matrix. This is what lets
/// each task compute its rows without looking at any other task's.
pub proof fn lemma_matmul_block<T: Numeric>(
    a: Seq<T>,
    b: Seq<T>,
    m: nat,
    n: nat,
    k: nat,
    first: nat,
    last: nat,
)
    requires
        first <= last <= m,
        a.len() == m * k,
    ensures
        first * n <= last * n <= m * n,
        matmul_seq(
            a.subrange((first * k) as int, (last * k) as int),
            b,
            (last - first) as nat,
            n,
            k,
        ) == matmul_seq(a, b, m, n, k).subrange((first * n) as int, (last * n) as int),
{
    let rows = last - first;
    let block = a.subrange((first * k) as int, (last * k) as int);
    let left = matmul_seq(block, b, rows as nat, n, k);
    let whole = matmul_seq(a, b, m, n, k);
    lemma_mul_inequality(last as int, m as int, n as int);
    lemma_mul_inequality(last as int, m as int, k as int);
    lemma_mul_is_distributive_add_other_way(n as int, first as int, rows);
    let right = whole.subrange((first * n) as int, (last * n) as int);
    assert forall|i: int| 0 <= i < left.len() implies left[i] == right[i] by {
        let width = n as int;
        let row = i / width;
        let col = i % width;
        lemma_fundamental_div_mod(i, width);
        assert(width * row == row * width) by (nonlinear_arith);
        assert(0 <= row < rows) by (nonlinear_arith)
            requires
                0 <= i < rows * width,
                i == row * width + col,
                0 <= col < width,
        ;
        lemma_mul_is_distributive_add_other_way(width, first as int, row);
        lemma_fundamental_div_mod_converse(first * n + i, width, first + row, col);
        lemma_dot_block(a, b, first as int, rows, row, col, width, k as int, k);
    }
}

/// Computes a block of rows of a matrix product.
///
/// `a` holds `m` rows of `k` elements, `b` the whole right-hand matrix of
/// `k` rows of `n` elements, and `c` the `m` rows of `n` elements that
/// receive the result. The output is set to zero first, so what it held
/// before does not matter; then each cell accumulates its products in the
/// order of the inner index.
pub fn matmul_slice<T: Numeric>(
    a: Box<&[T]>,
    b: &[T],
    c: Box<&mut [T]>,
    m: usize,
    n: usize,
    k: usize,
)
    requires
        a@.len() == m * k,
        b@.len() == k * n,
        c@.len() == m * n,
    ensures
        final(*c)@ == matmul_seq(a@, b@, m as nat, n as nat, k as nat),
{
    let out: &mut [T] = *c;
    let total: usize = out.len();
    assert(m * k <= usize::MAX && k * n <= usize::MAX) by {
        assert(a@.len() == a.len() && b@.len() == b.len());
    }
    let mut i: usize = 0;
    while i < total
        invariant
            out@.len() == total,
            i <= total,
            forall|j: int| 0 <= j < i ==> out@[j] == T::spec_zero(),
        decreases total - i,
    {
        out[i] = T::zero();
        i += 1;
    }
    let mut x: usize = 0;
    while x < m
        invariant
            a@.len() == m * k,
            b@.len() == k * n,
            out@.len() == m * n,
            m * k <= usize::MAX,
            k * n <= usize::MAX,
            m * n <= usize::MAX,
            x <= m,
            0 <= x * n <= m * n,
            forall|j: int|
                0 <= j < x * n ==> out@[j] == dot(
                    a@,
                    b@,
                    j / (n as int),
                    j % (n as int),
                    n as int,
                    k as int,
                    k as nat,
                ),
            forall|j: int| x * n <= j < m * n ==> out@[j] == T::spec_zero(),
        decreases m - x,
    {
        proof {
            if n > 0 {
                lemma_cell(x as int, 0, m as int, n as int);
            } else {
                assert((x + 1) * n == 0 && x * n == 0 && m * n == 0) by (nonlinear_arith)
                    requires
                        n == 0,
                ;
            }
        }
        let mut z: usize = 0;
        while z < k
            invariant
                a@.len() == m * k,
                b@.len() == k * n,
                out@.len() == m * n,
                m * k <= usize::MAX,
                k * n <= usize::MAX,
                m * n <= usize::MAX,
                x < m,
                z <= k,
                0 <= x * n <= (x + 1) * n <= m * n,
                (x + 1) * n == x * n + n,
                forall|j: int|
                    0 <= j < x * n ==> out@[j] == dot(
                        a@,
                        b@,
                        j / (n as int),
                        j % (n as int),
                        n as int,
                        k as int,
                        k as nat,
                    ),
                forall|j: int|
                    x * n <= j < (x + 1) * n ==> out@[j] == dot(
                        a@,
                        b@,
                        x as int,
                        j - x * n,
                        n as int,
                        k as int,
                        z as nat,
                    ),
                forall|j: int| (x + 1) * n <= j < m * n ==> out@[j] == T::spec_zero(),
            decreases k - z,
        {
            let mut y: usize = 0;
            while y < n
                invariant
                    a@.len() == m * k,
                    b@.len() == k * n,
                    out@.len() == m * n,
                    m * k <= usize::MAX,
                    k * n <= usize::MAX,
                    m * n <= usize::MAX,
                    x < m,
                    z < k,
                    y <= n,
                    0 <= x * n <= (x + 1) * n <= m * n,
                    (x + 1) * n == x * n + n,
                    forall|j: int|
                        0 <= j < x * n ==> out@[j] == dot(
                            a@,
                            b@,
                            j / (n as int),
                            j % (n as int),
                            n as int,
                            k as int,
                            k as nat,
                        ),
                    forall|j: int|
                        x * n <= j < x * n + y ==> out@[j] == dot(
                            a@,
                            b@,
                            x as int,
                            j - x * n,
                            n as int,
                            k as int,
                            (z + 1) as nat,
                        ),
                    forall|j: int|
                        x * n + y <= j < (x + 1) * n ==> out@[j] == dot(
                            a@,
                            b@,
                            x as int,
                            j - x * n,
                            n as int,
                            k as int,
                            z as nat,
                        ),
                    forall|j: int| (x + 1) * n <= j < m * n ==> out@[j] == T::spec_zero(),
                decreases n - y,
            {
                proof {
                    lemma_cell(x as int, z as int, m as int, k as int);
                    lemma_cell(z as int, y as int, k as int, n as int);
                }
                let at: usize = x * n + y;
                out[at] = out[at].plus(a[x * k + z].times(b[z * n + y]));
                y += 1;
            }
            z += 1;
        }
        proof {
            assert forall|j: int| x * n <= j < (x + 1) * n implies out@[j] == dot(
                a@,
                b@,
                j / (n as int),
                j % (n as int),
                n as int,
                k as int,
                k as nat,
            ) by {
                lemma_cell(x as int, j - x * n, m as int, n as int);
            }
        }
        x += 1;
    }
}

} // verus!

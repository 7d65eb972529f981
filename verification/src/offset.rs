//! The same operations by offsets into the whole buffers: each task is
//! given a range of offsets instead of a region of its own.

use vstd::arithmetic::div_mod::{lemma_fundamental_div_mod, lemma_mod_pos_bound};
use vstd::arithmetic::mul::{lemma_mul_inequality, lemma_mul_is_distributive_add_other_way};
use vstd::prelude::*;

use crate::dispatch::{add_outcome, matmul_outcome};
use crate::error::DispatchError;
use crate::kernel::{add_seq, dot, lemma_cell, matmul_seq};
use crate::numeric::Numeric;
use crate::partition::holds_matrix;
use crate::regions::{
    in_region, lemma_no_regions, lemma_region_bounds, lemma_unit_in_one_region, region_bounds,
    region_count, region_end, region_of, region_start, slice_count,
};

verus! {

/// What an output that held `c` holds after the sums of `a` and `b` have
/// been written at the offsets from `start` up to `end`: the sums there,
/// and what it held everywhere else.
pub open spec fn after_add_range<T: Numeric>(
    a: Seq<T>,
    b: Seq<T>,
    c: Seq<T>,
    start: int,
    end: int,
) -> Seq<T> {
    Seq::new(
        c.len(),
        |j: int|
            if start <= j < end {
                a[j].spec_plus(b[j])
            } else {
                c[j]
            },
    )
}

/// What an output that held `c` holds after the tasks of `schedule` have
/// added their ranges one after another. A schedule names tasks by index,
/// in any order and any number of times; task `i` has the range of region
/// `i`.
pub open spec fn after_add_tasks<T: Numeric>(
    a: Seq<T>,
    b: Seq<T>,
    c: Seq<T>,
    num_slices: nat,
    schedule: Seq<nat>,
) -> Seq<T>
    decreases schedule.len(),
{
    if schedule.len() == 0 {
        c
    } else {
        after_add_range(
            a,
            b,
            after_add_tasks(a, b, c, num_slices, schedule.drop_last()),
            region_start(c.len(), num_slices, schedule.last()) as int,
            region_end(c.len(), num_slices, schedule.last()) as int,
        )
    }
}

/// Whether some task of `schedule` has unit `u` in its range.
pub open spec fn reached(units: nat, num_slices: nat, schedule: Seq<nat>, u: nat) -> bool {
    exists|t: int| 0 <= t < schedule.len() && in_region(units, num_slices, #[trigger] schedule[t], u)
}

/// After a schedule has run, the offsets that some task reached hold their
/// sums and all others hold what they held before.
proof fn lemma_add_tasks_cells<T: Numeric>(
    a: Seq<T>,
    b: Seq<T>,
    c: Seq<T>,
    num_slices: nat,
    schedule: Seq<nat>,
)
    ensures
        after_add_tasks(a, b, c, num_slices, schedule).len() == c.len(),
        forall|j: int|
            0 <= j < c.len() ==> #[trigger] after_add_tasks(a, b, c, num_slices, schedule)[j] == (
            if reached(c.len(), num_slices, schedule, j as nat) {
                a[j].spec_plus(b[j])
            } else {
                c[j]
            }),
    decreases schedule.len(),
{
    if schedule.len() > 0 {
        let earlier = schedule.drop_last();
        let i = schedule.last();
        lemma_add_tasks_cells(a, b, c, num_slices, earlier);
        assert forall|j: int| 0 <= j < c.len() implies #[trigger] after_add_tasks(
            a,
            b,
            c,
            num_slices,
            schedule,
        )[j] == (if reached(c.len(), num_slices, schedule, j as nat) {
            a[j].spec_plus(b[j])
        } else {
            c[j]
        }) by {
            let u = j as nat;
            if in_region(c.len(), num_slices, i, u) {
                assert(schedule[schedule.len() - 1] == i);
            } else if reached(c.len(), num_slices, earlier, u) {
                let t = choose|t: int|
                    0 <= t < earlier.len() && in_region(
                        c.len(),
                        num_slices,
                        #[trigger] earlier[t],
                        u,
                    );
                assert(schedule[t] == earlier[t]);
            } else if reached(c.len(), num_slices, schedule, u) {
                let t = choose|t: int|
                    0 <= t < schedule.len() && in_region(
                        c.len(),
                        num_slices,
                        #[trigger] schedule[t],
                        u,
                    );
                assert(earlier[t] == schedule[t]);
            }
        }
    }
}

/// The order of the tasks does not matter. Whatever the output held
/// before, once every task has run at least once, in any order, it holds
/// the elementwise sum: no task depends on another, and none undoes what
/// another wrote.
pub proof fn lemma_add_any_order<T: Numeric>(
    a: Seq<T>,
    b: Seq<T>,
    c: Seq<T>,
    num_slices: nat,
    schedule: Seq<nat>,
)
    requires
        a.len() == b.len(),
        a.len() == c.len(),
        num_slices >= 1,
        forall|i: nat| i < region_count(c.len(), num_slices) ==> schedule.contains(i),
    ensures
        after_add_tasks(a, b, c, num_slices, schedule) == add_seq(a, b),
{
    lemma_add_tasks_cells(a, b, c, num_slices, schedule);
    assert forall|u: nat| u < c.len() implies #[trigger] reached(
        c.len(),
        num_slices,
        schedule,
        u,
    ) by {
        lemma_unit_in_one_region(c.len(), num_slices, u);
        let i = region_of(c.len(), num_slices, u);
        assert(schedule.contains(i));
        let t = choose|t: int| 0 <= t < schedule.len() && schedule[t] == i;
        assert(in_region(c.len(), num_slices, schedule[t], u));
    }
    assert(after_add_tasks(a, b, c, num_slices, schedule) =~= add_seq(a, b));
}

/// Adds the elements of `a` and `b` at the offsets from `start` up to `end`
/// into `c` at the same offsets.
///
/// This is one task's share of an addition done by offsets into the whole
/// buffers. It writes inside its range and nowhere else, so tasks with
/// disjoint ranges do not affect one another.
pub fn add_range<T: Numeric>(a: &[T], b: &[T], c: &mut [T], start: usize, end: usize)
    requires
        a@.len() == b@.len(),
        a@.len() == old(c)@.len(),
        start <= end <= a@.len(),
    ensures
        final(c)@ == after_add_range(a@, b@, old(c)@, start as int, end as int),
{
    let mut j: usize = start;
    while j < end
        invariant
            a@.len() == b@.len(),
            a@.len() == c@.len(),
            c@.len() == old(c)@.len(),
            start <= j <= end <= a@.len(),
            forall|i: int| start <= i < j ==> c@[i] == a@[i].spec_plus(b@[i]),
            forall|i: int| 0 <= i < c@.len() && !(start <= i < j) ==> c@[i] == old(c)@[i],
        decreases end - j,
    {
        c[j] = a[j].plus(b[j]);
        j += 1;
    }
}

/// Adds two vectors into a third by offsets into the whole buffers.
///
/// Task `i` handles the offsets that `region_bounds` gives it: the same
/// elements that region `i` of the partitioner holds. The ranges are
/// disjoint and cover the buffer, so the outcome is that of `add_vec` on
/// the same arguments.
pub fn add_vec_by_offset<T: Numeric>(
    a: &Vec<T>,
    b: &Vec<T>,
    c: &mut Vec<T>,
    num_slices: usize,
) -> (result: Result<(), DispatchError>)
    ensures
        add_outcome(a@, b@, old(c)@, num_slices as nat, result, final(c)@),
{
    if num_slices == 0 || a.len() != b.len() || a.len() != c.len() {
        return Err(DispatchError::InvalidArgument);
    }
    let n: usize = a.len();
    let count: usize = slice_count(n, num_slices);
    let out: &mut [T] = c.as_mut_slice();
    let mut done: usize = 0;
    let mut task: usize = 0;
    while task < count
        invariant
            a@.len() == n,
            b@.len() == n,
            out@.len() == n,
            count == region_count(n as nat, num_slices as nat),
            task <= count,
            done <= n,
            task == 0 ==> done == 0,
            task > 0 ==> done == region_end(n as nat, num_slices as nat, (task - 1) as nat),
            forall|j: int| 0 <= j < done ==> out@[j] == a@[j].spec_plus(b@[j]),
        decreases count - task,
    {
        proof {
            lemma_region_bounds(n as nat, num_slices as nat, task as nat);
        }
        let (start, end) = region_bounds(n, num_slices, task);
        add_range(a.as_slice(), b.as_slice(), out, start, end);
        done = end;
        task += 1;
    }
    proof {
        if count > 0 {
            lemma_region_bounds(n as nat, num_slices as nat, (count - 1) as nat);
        } else {
            lemma_no_regions(n as nat, num_slices as nat);
        }
        assert(out@ =~= add_seq(a@, b@));
    }
    Ok(())
}

/// What an output that held `c` holds after the rows from `first` up to
/// `last` of the product of `a` and `b` have been written: the product in
/// those rows, and what it held in all others.
pub open spec fn after_matmul_rows<T: Numeric>(
    a: Seq<T>,
    b: Seq<T>,
    c: Seq<T>,
    first: int,
    last: int,
    m: nat,
    n: nat,
    k: nat,
) -> Seq<T> {
    Seq::new(
        c.len(),
        |j: int|
            if first * n <= j < last * n {
                matmul_seq(a, b, m, n, k)[j]
            } else {
                c[j]
            },
    )
}

/// What an output that held `c` holds after the tasks of `schedule` have
/// computed their rows one after another. Task `i` has the rows of region
/// `i`, counted over the `m` rows of the output.
pub open spec fn after_matmul_tasks<T: Numeric>(
    a: Seq<T>,
    b: Seq<T>,
    c: Seq<T>,
    m: nat,
    n: nat,
    k: nat,
    num_threads: nat,
    schedule: Seq<nat>,
) -> Seq<T>
    decreases schedule.len(),
{
    if schedule.len() == 0 {
        c
    } else {
        after_matmul_rows(
            a,
            b,
            after_matmul_tasks(a, b, c, m, n, k, num_threads, schedule.drop_last()),
            region_start(m, num_threads, schedule.last()) as int,
            region_end(m, num_threads, schedule.last()) as int,
            m,
            n,
            k,
        )
    }
}

/// Whether offset `j` of an output with rows of `n` elements lies in the
/// rows of task `i`.
pub open spec fn in_rows(m: nat, n: nat, num_threads: nat, i: nat, j: int) -> bool {
    region_start(m, num_threads, i) * n <= j < region_end(m, num_threads, i) * n
}

/// Whether some task of `schedule` has offset `j` in its rows.
pub open spec fn reached_in_rows(
    m: nat,
    n: nat,
    num_threads: nat,
    schedule: Seq<nat>,
    j: int,
) -> bool {
    exists|t: int| 0 <= t < schedule.len() && in_rows(m, n, num_threads, #[trigger] schedule[t], j)
}

/// After a schedule has run, the offsets in rows that some task reached
/// hold the product and all others hold what they held before.
proof fn lemma_matmul_tasks_cells<T: Numeric>(
    a: Seq<T>,
    b: Seq<T>,
    c: Seq<T>,
    m: nat,
    n: nat,
    k: nat,
    num_threads: nat,
    schedule: Seq<nat>,
)
    ensures
        after_matmul_tasks(a, b, c, m, n, k, num_threads, schedule).len() == c.len(),
        forall|j: int|
            0 <= j < c.len() ==> #[trigger] after_matmul_tasks(
                a,
                b,
                c,
                m,
                n,
                k,
                num_threads,
                schedule,
            )[j] == (if reached_in_rows(m, n, num_threads, schedule, j) {
                matmul_seq(a, b, m, n, k)[j]
            } else {
                c[j]
            }),
    decreases schedule.len(),
{
    if schedule.len() > 0 {
        let earlier = schedule.drop_last();
        let i = schedule.last();
        lemma_matmul_tasks_cells(a, b, c, m, n, k, num_threads, earlier);
        assert forall|j: int| 0 <= j < c.len() implies #[trigger] after_matmul_tasks(
            a,
            b,
            c,
            m,
            n,
            k,
            num_threads,
            schedule,
        )[j] == (if reached_in_rows(m, n, num_threads, schedule, j) {
            matmul_seq(a, b, m, n, k)[j]
        } else {
            c[j]
        }) by {
            if in_rows(m, n, num_threads, i, j) {
                assert(schedule[schedule.len() - 1] == i);
            } else if reached_in_rows(m, n, num_threads, earlier, j) {
                let t = choose|t: int|
                    0 <= t < earlier.len() && in_rows(m, n, num_threads, #[trigger] earlier[t], j);
                assert(schedule[t] == earlier[t]);
            } else if reached_in_rows(m, n, num_threads, schedule, j) {
                let t = choose|t: int|
                    0 <= t < schedule.len() && in_rows(
                        m,
                        n,
                        num_threads,
                        #[trigger] schedule[t],
                        j,
                    );
                assert(earlier[t] == schedule[t]);
            }
        }
    }
}

/// The order of the tasks does not matter for a matrix product either.
/// Whatever the output held before, once every task has run at least once,
/// in any order, it holds the product.
pub proof fn lemma_matmul_any_order<T: Numeric>(
    a: Seq<T>,
    b: Seq<T>,
    c: Seq<T>,
    m: nat,
    n: nat,
    k: nat,
    num_threads: nat,
    schedule: Seq<nat>,
)
    requires
        c.len() == m * n,
        num_threads >= 1,
        forall|i: nat| i < region_count(m, num_threads) ==> schedule.contains(i),
    ensures
        after_matmul_tasks(a, b, c, m, n, k, num_threads, schedule) == matmul_seq(a, b, m, n, k),
{
    lemma_matmul_tasks_cells(a, b, c, m, n, k, num_threads, schedule);
    assert forall|j: int| 0 <= j < c.len() implies #[trigger] reached_in_rows(
        m,
        n,
        num_threads,
        schedule,
        j,
    ) by {
        let width = n as int;
        assert(width > 0) by (nonlinear_arith)
            requires
                0 <= j < m * width,
                0 <= width,
        ;
        let row = j / width;
        lemma_fundamental_div_mod(j, width);
        lemma_mod_pos_bound(j, width);
        assert(width * row == row * width) by (nonlinear_arith);
        assert(0 <= row < m) by (nonlinear_arith)
            requires
                0 <= j < m * width,
                j == row * width + j % width,
                0 <= j % width < width,
        ;
        lemma_unit_in_one_region(m, num_threads, row as nat);
        let i = region_of(m, num_threads, row as nat);
        assert(schedule.contains(i));
        let t = choose|t: int| 0 <= t < schedule.len() && schedule[t] == i;
        lemma_mul_inequality(region_start(m, num_threads, i) as int, row, width);
        lemma_mul_inequality(row + 1, region_end(m, num_threads, i) as int, width);
        lemma_mul_is_distributive_add_other_way(width, row, 1);
        assert(in_rows(m, n, num_threads, schedule[t], j));
    }
    assert(after_matmul_tasks(a, b, c, m, n, k, num_threads, schedule) =~= matmul_seq(a, b, m, n, k));
}

/// Computes the rows from `first` up to `last` of a matrix product by
/// offsets into the whole buffers.
///
/// `a` is `m` by `k`, `b` is `k` by `n` and `c` is `m` by `n`, all
/// row-major. This is one task's share: it zeroes its rows of `c`, whatever
/// they held, accumulates each cell's products in the order of the inner
/// index, and writes to no other row.
pub fn matmul_rows<T: Numeric>(
    a: &[T],
    b: &[T],
    c: &mut [T],
    first: usize,
    last: usize,
    m: usize,
    n: usize,
    k: usize,
)
    requires
        a@.len() == m * k,
        b@.len() == k * n,
        old(c)@.len() == m * n,
        first <= last <= m,
    ensures
        final(c)@ == after_matmul_rows(
            a@,
            b@,
            old(c)@,
            first as int,
            last as int,
            m as nat,
            n as nat,
            k as nat,
        ),
{
    proof {
        assert(a@.len() == a.len() && b@.len() == b.len() && c@.len() == c.len());
        lemma_mul_inequality(first as int, last as int, n as int);
        lemma_mul_inequality(last as int, m as int, n as int);
    }
    let from: usize = first * n;
    let to: usize = last * n;
    let mut i: usize = from;
    while i < to
        invariant
            c@.len() == m * n,
            from == first * n,
            to == last * n,
            from <= i <= to <= m * n,
            forall|j: int| from <= j < i ==> c@[j] == T::spec_zero(),
            forall|j: int| 0 <= j < m * n && !(from <= j < i) ==> c@[j] == old(c)@[j],
        decreases to - i,
    {
        c[i] = T::zero();
        i += 1;
    }
    let mut x: usize = first;
    while x < last
        invariant
            a@.len() == m * k,
            b@.len() == k * n,
            c@.len() == m * n,
            m * k <= usize::MAX,
            k * n <= usize::MAX,
            m * n <= usize::MAX,
            first <= x <= last <= m,
            0 <= first * n <= x * n <= last * n <= m * n,
            forall|j: int|
                first * n <= j < x * n ==> c@[j] == dot(
                    a@,
                    b@,
                    j / (n as int),
                    j % (n as int),
                    n as int,
                    k as int,
                    k as nat,
                ),
            forall|j: int| x * n <= j < last * n ==> c@[j] == T::spec_zero(),
            forall|j: int|
                0 <= j < m * n && !(first * n <= j < last * n) ==> c@[j] == old(c)@[j],
        decreases last - x,
    {
        proof {
            lemma_mul_inequality(x + 1, last as int, n as int);
            lemma_mul_is_distributive_add_other_way(n as int, x as int, 1);
        }
        let mut z: usize = 0;
        while z < k
            invariant
                a@.len() == m * k,
                b@.len() == k * n,
                c@.len() == m * n,
                m * k <= usize::MAX,
                k * n <= usize::MAX,
                m * n <= usize::MAX,
                first <= x < last <= m,
                z <= k,
                0 <= first * n <= x * n <= (x + 1) * n <= last * n <= m * n,
                (x + 1) * n == x * n + n,
                forall|j: int|
                    first * n <= j < x * n ==> c@[j] == dot(
                        a@,
                        b@,
                        j / (n as int),
                        j % (n as int),
                        n as int,
                        k as int,
                        k as nat,
                    ),
                forall|j: int|
                    x * n <= j < (x + 1) * n ==> c@[j] == dot(
                        a@,
                        b@,
                        x as int,
                        j - x * n,
                        n as int,
                        k as int,
                        z as nat,
                    ),
                forall|j: int| (x + 1) * n <= j < last * n ==> c@[j] == T::spec_zero(),
                forall|j: int|
                    0 <= j < m * n && !(first * n <= j < last * n) ==> c@[j] == old(c)@[j],
            decreases k - z,
        {
            let mut y: usize = 0;
            while y < n
                invariant
                    a@.len() == m * k,
                    b@.len() == k * n,
                    c@.len() == m * n,
                    m * k <= usize::MAX,
                    k * n <= usize::MAX,
                    m * n <= usize::MAX,
                    first <= x < last <= m,
                    z < k,
                    y <= n,
                    0 <= first * n <= x * n <= (x + 1) * n <= last * n <= m * n,
                    (x + 1) * n == x * n + n,
                    forall|j: int|
                        first * n <= j < x * n ==> c@[j] == dot(
                            a@,
                            b@,
                            j / (n as int),
                            j % (n as int),
                            n as int,
                            k as int,
                            k as nat,
                        ),
                    forall|j: int|
                        x * n <= j < x * n + y ==> c@[j] == dot(
                            a@,
                            b@,
                            x as int,
                            j - x * n,
                            n as int,
                            k as int,
                            (z + 1) as nat,
                        ),
                    forall|j: int|
                        x * n + y <= j < (x + 1) * n ==> c@[j] == dot(
                            a@,
                            b@,
                            x as int,
                            j - x * n,
                            n as int,
                            k as int,
                            z as nat,
                        ),
                    forall|j: int| (x + 1) * n <= j < last * n ==> c@[j] == T::spec_zero(),
                    forall|j: int|
                        0 <= j < m * n && !(first * n <= j < last * n) ==> c@[j] == old(c)@[j],
                decreases n - y,
            {
                proof {
                    lemma_cell(x as int, z as int, m as int, k as int);
                    lemma_cell(z as int, y as int, k as int, n as int);
                }
                let at: usize = x * n + y;
                c[at] = c[at].plus(a[x * k + z].times(b[z * n + y]));
                y += 1;
            }
            z += 1;
        }
        proof {
            assert forall|j: int| x * n <= j < (x + 1) * n implies c@[j] == dot(
                a@,
                b@,
                j / (n as int),
                j % (n as int),
                n as int,
                k as int,
                k as nat,
            ) by {
                lemma_cell(x as int, j - x * n, m as int, n as int);
            }
        }
        x += 1;
    }
}

/// Multiplies two matrices by offsets into the whole buffers.
///
/// Task `i` handles the rows that `region_bounds` gives it over the `m`
/// rows of the output: the same rows that block `i` of the partitioner
/// holds. The row ranges are disjoint and cover the output, so the outcome
/// is that of `matmul` on the same arguments.
pub fn matmul_by_offset<T: Numeric>(
    a: &Vec<T>,
    b: &Vec<T>,
    c: &mut Vec<T>,
    m: usize,
    n: usize,
    k: usize,
    num_threads: usize,
) -> (result: Result<(), DispatchError>)
    ensures
        matmul_outcome(
            a@,
            b@,
            old(c)@,
            m as nat,
            n as nat,
            k as nat,
            num_threads as nat,
            result,
            final(c)@,
        ),
{
    if num_threads == 0 || !holds_matrix(a.len(), m, k) || !holds_matrix(b.len(), k, n)
        || !holds_matrix(c.len(), m, n) {
        return Err(DispatchError::InvalidArgument);
    }
    let ghost product = matmul_seq(a@, b@, m as nat, n as nat, k as nat);
    let count: usize = slice_count(m, num_threads);
    let out: &mut [T] = c.as_mut_slice();
    let mut done: usize = 0;
    let mut task: usize = 0;
    while task < count
        invariant
            a@.len() == m * k,
            b@.len() == k * n,
            out@.len() == m * n,
            product == matmul_seq(a@, b@, m as nat, n as nat, k as nat),
            count == region_count(m as nat, num_threads as nat),
            task <= count,
            done <= m,
            task == 0 ==> done == 0,
            task > 0 ==> done == region_end(m as nat, num_threads as nat, (task - 1) as nat),
            forall|j: int| 0 <= j < done * n ==> out@[j] == product[j],
        decreases count - task,
    {
        proof {
            lemma_region_bounds(m as nat, num_threads as nat, task as nat);
        }
        let (first, last) = region_bounds(m, num_threads, task);
        proof {
            lemma_mul_inequality(last as int, m as int, n as int);
        }
        matmul_rows(a.as_slice(), b.as_slice(), out, first, last, m, n, k);
        done = last;
        task += 1;
    }
    proof {
        if count > 0 {
            lemma_region_bounds(m as nat, num_threads as nat, (count - 1) as nat);
        } else {
            lemma_no_regions(m as nat, num_threads as nat);
            assert(m * n == 0) by (nonlinear_arith)
                requires
                    m == 0,
            ;
        }
        assert(out@ =~= product);
    }
    Ok(())
}

} // verus!

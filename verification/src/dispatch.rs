//! Whole operations: cut the buffers, run the kernel on every region,
//! report the outcome.

use vstd::arithmetic::mul::{lemma_mul_inequality, lemma_mul_is_distributive_add_other_way};
use vstd::prelude::*;

use crate::error::DispatchError;
use crate::kernel::{add_seq, add_vec_slice, lemma_matmul_block, matmul_seq, matmul_slice};
use crate::numeric::Numeric;
use crate::partition::{
    concat, contents, contents_mut, holds_matrix, is_partition, is_row_partition,
    lemma_concat_tiles, region_of_rows, split_immut_matrix, split_immut_vec, split_mut_matrix,
    split_mut_vec,
};
use crate::regions::{
    lemma_no_regions, lemma_region_bounds, region_bounds, region_count, region_end, region_len,
    region_start,
};

verus! {

/// What adding `a` and `b` into an output that held `before` comes to, for
/// `num_threads` workers: either the arguments are refused and the output
/// is as it was, or the call succeeds and the output is the elementwise
/// sum. Nothing else can happen, and which of the two it is depends on the
/// lengths and on `num_threads` alone.
pub open spec fn add_outcome<T: Numeric>(
    a: Seq<T>,
    b: Seq<T>,
    before: Seq<T>,
    num_threads: nat,
    result: Result<(), DispatchError>,
    after: Seq<T>,
) -> bool {
    if num_threads == 0 || a.len() != b.len() || a.len() != before.len() {
        result == Err::<(), DispatchError>(DispatchError::InvalidArgument) && after == before
    } else {
        result == Ok::<(), DispatchError>(()) && after == add_seq(a, b)
    }
}

/// What multiplying an `m` by `k` matrix `a` by a `k` by `n` matrix `b`
/// into an output that held `before` comes to, for `num_threads` workers:
/// either the arguments are refused and the output is as it was, or the
/// call succeeds and the output is the product. Which of the two it is
/// depends on the lengths, the dimensions and `num_threads` alone.
pub open spec fn matmul_outcome<T: Numeric>(
    a: Seq<T>,
    b: Seq<T>,
    before: Seq<T>,
    m: nat,
    n: nat,
    k: nat,
    num_threads: nat,
    result: Result<(), DispatchError>,
    after: Seq<T>,
) -> bool {
    if num_threads == 0 || a.len() != m * k || b.len() != k * n || before.len() != m * n {
        result == Err::<(), DispatchError>(DispatchError::InvalidArgument) && after == before
    } else {
        result == Ok::<(), DispatchError>(()) && after == matmul_seq(a, b, m, n, k)
    }
}

/// Filling every region of the output with the sum of the matching
/// regions of the inputs fills the whole output with the sum of the inputs.
/// Each region is computed from its own inputs alone, so it does not matter
/// when, or in which order, the regions are filled.
pub proof fn lemma_add_by_regions<T: Numeric>(
    a: Seq<T>,
    b: Seq<T>,
    num_slices: nat,
    a_regions: Seq<Seq<T>>,
    b_regions: Seq<Seq<T>>,
    c_regions: Seq<Seq<T>>,
)
    requires
        a.len() == b.len(),
        num_slices >= 1,
        is_partition(a_regions, a, num_slices),
        is_partition(b_regions, b, num_slices),
        c_regions.len() == a_regions.len(),
        forall|i: int|
            0 <= i < c_regions.len() ==> #[trigger] c_regions[i] == add_seq(
                a_regions[i],
                b_regions[i],
            ),
    ensures
        concat(c_regions) == add_seq(a, b),
{
    let len = a.len();
    let sum = add_seq(a, b);
    let ends = Seq::new(c_regions.len(), |j: int| region_end(len, num_slices, j as nat) as int);
    assert forall|j: int| 0 <= j < c_regions.len() implies {
        &&& 0 <= (if j == 0 {
            0
        } else {
            ends[j - 1]
        }) <= #[trigger] ends[j] <= sum.len()
        &&& c_regions[j] == sum.subrange(
            if j == 0 {
                0
            } else {
                ends[j - 1]
            },
            ends[j],
        )
    } by {
        lemma_region_bounds(len, num_slices, j as nat);
        assert(c_regions[j] == add_seq(a_regions[j], b_regions[j]));
        assert(add_seq(a_regions[j], b_regions[j]) =~= sum.subrange(
            region_start(len, num_slices, j as nat) as int,
            region_end(len, num_slices, j as nat) as int,
        ));
    }
    lemma_concat_tiles(c_regions, sum, ends);
    if c_regions.len() > 0 {
        lemma_region_bounds(len, num_slices, (c_regions.len() - 1) as nat);
    } else {
        lemma_no_regions(len, num_slices);
    }
    assert(sum.subrange(0, len as int) =~= sum);
}

/// Adds two vectors into a third, region by region.
///
/// The three vectors are cut into the same regions and the addition kernel
/// runs once per region. What the output held before is overwritten. A
/// `num_threads` larger than the vectors are long gives one region per
/// element. Vectors of unequal length or a `num_threads` of zero are
/// refused before anything is written.
pub fn add_vec<T: Numeric>(a: &Vec<T>, b: &Vec<T>, c: &mut Vec<T>, num_threads: usize) -> (result:
    Result<(), DispatchError>)
    ensures
        add_outcome(a@, b@, old(c)@, num_threads as nat, result, final(c)@),
{
    if num_threads == 0 || a.len() != b.len() || a.len() != c.len() {
        return Err(DispatchError::InvalidArgument);
    }
    let ghost len = a@.len();
    let ghost slices = num_threads as nat;
    let a_regions = split_immut_vec(a, num_threads)?;
    let b_regions = split_immut_vec(b, num_threads)?;
    let c_regions = split_mut_vec(c, num_threads)?;
    let ghost targets = c_regions@;
    let count: usize = c_regions.len();
    let mut i: usize = 0;
    for out in it: c_regions
        invariant
            i == it.index(),
            it.seq() == targets,
            targets.len() == count,
            targets.len() == region_count(len, slices),
            a@.len() == len,
            b@.len() == len,
            is_partition(contents(a_regions@), a@, slices),
            is_partition(contents(b_regions@), b@, slices),
            is_partition(contents_mut(targets), old(c)@, slices),
            old(c)@.len() == len,
            forall|j: int|
                0 <= j < i ==> final(*#[trigger] targets[j])@ == add_seq(
                    contents(a_regions@)[j],
                    contents(b_regions@)[j],
                ),
    {
        proof {
            lemma_region_bounds(len, slices, i as nat);
            assert(contents(a_regions@)[i as int] == (*a_regions@[i as int])@);
            assert(contents(b_regions@)[i as int] == (*b_regions@[i as int])@);
            assert(contents_mut(targets)[i as int] == (*targets[i as int])@);
        }
        let x: &[T] = *a_regions[i];
        let y: &[T] = *b_regions[i];
        add_vec_slice(Box::new(x), Box::new(y), out);
        i += 1;
    }
    proof {
        lemma_add_by_regions(
            a@,
            b@,
            slices,
            contents(a_regions@),
            contents(b_regions@),
            Seq::new(targets.len(), |j: int| final(*targets[j])@),
        );
    }
    Ok(())
}

/// Filling every block of rows of the output with the product of the
/// matching block of rows of the left-hand matrix and the whole right-hand
/// matrix fills the whole output with the product of the two matrices. Each
/// block is computed from its own rows alone, so it does not matter when,
/// or in which order, the blocks are filled.
pub proof fn lemma_matmul_by_blocks<T: Numeric>(
    a: Seq<T>,
    b: Seq<T>,
    m: nat,
    n: nat,
    k: nat,
    num_slices: nat,
    a_blocks: Seq<Seq<T>>,
    c_blocks: Seq<Seq<T>>,
)
    requires
        a.len() == m * k,
        num_slices >= 1,
        is_row_partition(a_blocks, a, m, k, num_slices),
        c_blocks.len() == a_blocks.len(),
        forall|i: int|
            0 <= i < c_blocks.len() ==> #[trigger] c_blocks[i] == matmul_seq(
                a_blocks[i],
                b,
                region_len(m, num_slices, i as nat),
                n,
                k,
            ),
    ensures
        concat(c_blocks) == matmul_seq(a, b, m, n, k),
{
    let product = matmul_seq(a, b, m, n, k);
    let ends = Seq::new(
        c_blocks.len(),
        |j: int| (region_end(m, num_slices, j as nat) * n) as int,
    );
    assert forall|j: int| 0 <= j < c_blocks.len() implies {
        &&& 0 <= (if j == 0 {
            0
        } else {
            ends[j - 1]
        }) <= #[trigger] ends[j] <= product.len()
        &&& c_blocks[j] == product.subrange(
            if j == 0 {
                0
            } else {
                ends[j - 1]
            },
            ends[j],
        )
    } by {
        lemma_region_bounds(m, num_slices, j as nat);
        let start = region_start(m, num_slices, j as nat);
        let end = region_end(m, num_slices, j as nat);
        lemma_mul_inequality(start as int, end as int, n as int);
        lemma_mul_inequality(end as int, m as int, n as int);
        lemma_mul_inequality(0, start as int, n as int);
        lemma_matmul_block(a, b, m, n, k, start, end);
        assert(a_blocks[j] == region_of_rows(a, m, k, num_slices, j as nat));
        assert(c_blocks[j] == matmul_seq(
            a_blocks[j],
            b,
            region_len(m, num_slices, j as nat),
            n,
            k,
        ));
    }
    lemma_concat_tiles(c_blocks, product, ends);
    if c_blocks.len() > 0 {
        lemma_region_bounds(m, num_slices, (c_blocks.len() - 1) as nat);
    } else {
        lemma_no_regions(m, num_slices);
        assert(m * n == 0) by (nonlinear_arith)
            requires
                m == 0,
        ;
    }
    assert(product.subrange(0, product.len() as int) =~= product);
}

/// Multiplies an `m` by `k` matrix by a `k` by `n` matrix into an `m` by
/// `n` matrix, one block of rows at a time.
///
/// The left-hand matrix and the output are cut into the same blocks of
/// whole rows, and the block kernel runs once per block against the whole
/// right-hand matrix. The kernel zeroes its block first, so what the output
/// held before is discarded. A `num_threads` larger than `m` gives one
/// block per row. Buffers whose lengths do not match the dimensions, or a
/// `num_threads` of zero, are refused before anything is written.
pub fn matmul<T: Numeric>(
    a: &Vec<T>,
    b: &Vec<T>,
    c: &mut Vec<T>,
    m: usize,
    n: usize,
    k: usize,
    num_threads: usize,
) -> (result: Result<(), DispatchError>)
    ensures
        matmul_outcome(
            a@,
            b@,
            old(c)@,
            m as nat,
            n as nat,
            k as nat,
            num_threads as nat,
            result,
            final(c)@,
        ),
{
    if num_threads == 0 || !holds_matrix(a.len(), m, k) || !holds_matrix(b.len(), k, n)
        || !holds_matrix(c.len(), m, n) {
        return Err(DispatchError::InvalidArgument);
    }
    let ghost slices = num_threads as nat;
    let a_regions = split_immut_matrix(a, m, k, num_threads)?;
    let c_regions = split_mut_matrix(c, m, n, num_threads)?;
    let ghost targets = c_regions@;
    let count: usize = c_regions.len();
    let mut i: usize = 0;
    for out in it: c_regions
        invariant
            i == it.index(),
            it.seq() == targets,
            targets.len() == count,
            targets.len() == region_count(m as nat, slices),
            slices == num_threads,
            a@.len() == m * k,
            b@.len() == k * n,
            old(c)@.len() == m * n,
            is_row_partition(contents(a_regions@), a@, m as nat, k as nat, slices),
            is_row_partition(contents_mut(targets), old(c)@, m as nat, n as nat, slices),
            forall|j: int|
                0 <= j < i ==> final(*#[trigger] targets[j])@ == matmul_seq(
                    contents(a_regions@)[j],
                    b@,
                    region_len(m as nat, slices, j as nat),
                    n as nat,
                    k as nat,
                ),
    {
        proof {
            lemma_region_bounds(m as nat, slices, i as nat);
            assert(contents(a_regions@)[i as int] == (*a_regions@[i as int])@);
            assert(contents_mut(targets)[i as int] == (*targets[i as int])@);
        }
        let (first, last) = region_bounds(m, num_threads, i);
        let block: &[T] = *a_regions[i];
        proof {
            lemma_mul_inequality(last as int, m as int, k as int);
            lemma_mul_inequality(last as int, m as int, n as int);
            lemma_mul_is_distributive_add_other_way(k as int, first as int, last - first);
            lemma_mul_is_distributive_add_other_way(n as int, first as int, last - first);
        }
        matmul_slice(Box::new(block), b.as_slice(), out, last - first, n, k);
        i += 1;
    }
    proof {
        lemma_matmul_by_blocks(
            a@,
            b@,
            m as nat,
            n as nat,
            k as nat,
            slices,
            contents(a_regions@),
            Seq::new(targets.len(), |j: int| final(*targets[j])@),
        );
    }
    Ok(())
}

/// Two runs on the same inputs agree: they are refused or accepted
/// alike, and where they are accepted they leave the same output. This
/// holds whatever the two outputs held before, as long as they were equally
/// long, and for any two positive worker counts. So a run can be repeated,
/// the worker count is free, and a path that cuts regions and one that
/// computes offsets give the same elements.
pub proof fn lemma_add_repeatable<T: Numeric>(
    a: Seq<T>,
    b: Seq<T>,
    first_before: Seq<T>,
    second_before: Seq<T>,
    first_workers: nat,
    second_workers: nat,
    first_result: Result<(), DispatchError>,
    second_result: Result<(), DispatchError>,
    first_after: Seq<T>,
    second_after: Seq<T>,
)
    requires
        first_before.len() == second_before.len(),
        first_workers >= 1,
        second_workers >= 1,
        add_outcome(a, b, first_before, first_workers, first_result, first_after),
        add_outcome(a, b, second_before, second_workers, second_result, second_after),
    ensures
        first_result == second_result,
        first_result is Ok ==> first_after == second_after,
        first_result is Ok ==> first_after.len() == a.len() && forall|i: int|
            0 <= i < a.len() ==> first_after[i] == a[i].spec_plus(b[i]),
{
}

/// Two matrix products on the same inputs and dimensions agree, in the
/// same sense as two additions do: whatever the outputs held before, and
/// for any two positive worker counts.
pub proof fn lemma_matmul_repeatable<T: Numeric>(
    a: Seq<T>,
    b: Seq<T>,
    first_before: Seq<T>,
    second_before: Seq<T>,
    m: nat,
    n: nat,
    k: nat,
    first_workers: nat,
    second_workers: nat,
    first_result: Result<(), DispatchError>,
    second_result: Result<(), DispatchError>,
    first_after: Seq<T>,
    second_after: Seq<T>,
)
    requires
        first_before.len() == second_before.len(),
        first_workers >= 1,
        second_workers >= 1,
        matmul_outcome(a, b, first_before, m, n, k, first_workers, first_result, first_after),
        matmul_outcome(a, b, second_before, m, n, k, second_workers, second_result, second_after),
    ensures
        first_result == second_result,
        first_result is Ok ==> first_after == second_after,
{
}

/// What a dispatch reports once every task has been joined: success if
/// all of them completed, one failure for the whole dispatch if any did
/// not. `completed` holds one flag per task, set where the task ran to its
/// end.
pub fn join_outcome(completed: &Vec<bool>) -> (result: Result<(), DispatchError>)
    ensures
        result is Ok <==> forall|i: int| 0 <= i < completed@.len() ==> completed@[i],
        result matches Err(e) ==> e == DispatchError::TaskFailure,
{
    let mut all: bool = true;
    let mut i: usize = 0;
    while i < completed.len()
        invariant
            i <= completed@.len(),
            all <==> forall|j: int| 0 <= j < i ==> completed@[j],
        decreases completed@.len() - i,
    {
        if !completed[i] {
            all = false;
        }
        i += 1;
    }
    if all {
        Ok(())
    } else {
        Err(DispatchError::TaskFailure)
    }
}

} // verus!

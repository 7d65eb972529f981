//! Cutting vectors and row-major matrices into regions, shared or
//! exclusive.

use vstd::arithmetic::mul::{lemma_mul_inequality, lemma_mul_is_distributive_add_other_way};
use vstd::prelude::*;

use crate::error::DispatchError;
use crate::regions::{
    lemma_no_regions, lemma_partition_shape, lemma_region_bounds, region_count, region_end,
    region_size, region_start, slice_count, slice_len,
};

verus! {

/// The elements of a row-major buffer that make up region `i`, when rows of
/// `width` elements are handed out: whole rows only.
pub open spec fn region_of_rows<T>(
    buffer: Seq<T>,
    height: nat,
    width: nat,
    num_slices: nat,
    i: nat,
) -> Seq<T> {
    buffer.subrange(
        (region_start(height, num_slices, i) * width) as int,
        (region_end(height, num_slices, i) * width) as int,
    )
}

/// What a row partition of `buffer` looks like: one region per index below
/// `region_count`, region `i` holding exactly the rows from `region_start`
/// up to `region_end`.
pub open spec fn is_row_partition<T>(
    regions: Seq<Seq<T>>,
    buffer: Seq<T>,
    height: nat,
    width: nat,
    num_slices: nat,
) -> bool {
    &&& regions.len() == region_count(height, num_slices)
    &&& forall|i: int|
        0 <= i < regions.len() ==> #[trigger] regions[i] == region_of_rows(
            buffer,
            height,
            width,
            num_slices,
            i as nat,
        )
}

/// What a partition of a vector looks like: a row partition whose rows are
/// single elements.
pub open spec fn is_partition<T>(regions: Seq<Seq<T>>, buffer: Seq<T>, num_slices: nat) -> bool {
    &&& regions.len() == region_count(buffer.len(), num_slices)
    &&& forall|i: int|
        0 <= i < regions.len() ==> #[trigger] regions[i] == buffer.subrange(
            region_start(buffer.len(), num_slices, i as nat) as int,
            region_end(buffer.len(), num_slices, i as nat) as int,
        )
}

/// The present contents of shared regions, region by region.
pub open spec fn contents<T>(regions: Seq<Box<&[T]>>) -> Seq<Seq<T>> {
    Seq::new(regions.len(), |i: int| (*regions[i])@)
}

/// The present contents of exclusive regions, region by region.
pub open spec fn contents_mut<T>(regions: Seq<Box<&mut [T]>>) -> Seq<Seq<T>> {
    Seq::new(regions.len(), |i: int| (*regions[i])@)
}

/// Regions laid end to end, in region order.
pub open spec fn concat<T>(regions: Seq<Seq<T>>) -> Seq<T>
    decreases regions.len(),
{
    if regions.len() == 0 {
        Seq::empty()
    } else {
        concat(regions.drop_last()) + regions.last()
    }
}

/// Regions that tile `whole` give `whole` back when laid end to end: if
/// `ends[i]` is where region `i` stops, the first region starts at zero and
/// each next one where its predecessor stopped.
pub(crate) proof fn lemma_concat_tiles<T>(regions: Seq<Seq<T>>, whole: Seq<T>, ends: Seq<int>)
    requires
        ends.len() == regions.len(),
        forall|i: int|
            0 <= i < regions.len() ==> {
                &&& 0 <= (if i == 0 {
                    0
                } else {
                    ends[i - 1]
                }) <= #[trigger] ends[i] <= whole.len()
                &&& regions[i] == whole.subrange(
                    if i == 0 {
                        0
                    } else {
                        ends[i - 1]
                    },
                    ends[i],
                )
            },
    ensures
        concat(regions) == whole.subrange(
            0,
            if regions.len() == 0 {
                0
            } else {
                ends.last()
            },
        ),
    decreases regions.len(),
{
    if regions.len() > 0 {
        lemma_concat_tiles(regions.drop_last(), whole, ends.drop_last());
    }
}

/// Whether a buffer of `len` elements holds exactly a `height` by `width`
/// matrix.
pub fn holds_matrix(len: usize, height: usize, width: usize) -> (fits: bool)
    ensures
        fits <==> len == height * width,
{
    match height.checked_mul(width) {
        Some(cells) => cells == len,
        None => false,
    }
}

/// Element offsets of the regions: `i` regions of `rows` rows each end at
/// element `i * (rows * width)`, and that is within a buffer of
/// `height * width` elements as long as the rows are.
proof fn lemma_row_offsets(i: int, rows: int, width: int, height: int)
    requires
        0 <= i,
        0 <= rows,
        0 <= width,
        i * rows <= height,
    ensures
        (i * rows) * width == i * (rows * width),
        (i * rows) * width <= height * width,
        0 <= (i * rows) * width,
{
    assert((i * rows) * width == i * (rows * width)) by (nonlinear_arith);
    assert(0 <= i * rows) by (nonlinear_arith)
        requires
            0 <= i,
            0 <= rows,
    ;
    lemma_mul_inequality(i * rows, height, width);
    assert(0 <= (i * rows) * width) by (nonlinear_arith)
        requires
            0 <= i * rows,
            0 <= width,
    ;
}

/// Cuts a row-major buffer of `height` rows into shared regions of whole
/// rows.
fn split_rows<'a, T>(v: &'a [T], height: usize, width: usize, num_slices: usize) -> (regions: Vec<
    Box<&'a [T]>,
>)
    requires
        v@.len() == height * width,
    ensures
        is_row_partition(contents(regions@), v@, height as nat, width as nat, num_slices as nat),
{
    let count: usize = slice_count(height, num_slices);
    let mut regions: Vec<Box<&'a [T]>> = Vec::new();
    if count == 0 {
        return regions;
    }
    let rows: usize = slice_len(height, num_slices);
    proof {
        lemma_partition_shape(height as nat, num_slices as nat);
        lemma_row_offsets(1, rows as int, width as int, height as int);
        assert(v@.len() == v.len());
    }
    let chunk: usize = rows * width;
    let mut remaining: &'a [T] = v;
    let mut i: usize = 0;
    while i < count - 1
        invariant
            v@.len() == height * width,
            count == region_count(height as nat, num_slices as nat),
            rows == region_size(height as nat, num_slices as nat),
            chunk == rows * width,
            count >= 1,
            i <= count - 1,
            regions@.len() == i,
            i * chunk <= v@.len(),
            remaining@ == v@.subrange(i * chunk, v@.len() as int),
            forall|j: int|
                0 <= j < i ==> (*#[trigger] regions@[j])@ == region_of_rows(
                    v@,
                    height as nat,
                    width as nat,
                    num_slices as nat,
                    j as nat,
                ),
        decreases count - 1 - i,
    {
        proof {
            lemma_region_bounds(height as nat, num_slices as nat, i as nat);
            lemma_row_offsets(i as int, rows as int, width as int, height as int);
            lemma_row_offsets(i + 1, rows as int, width as int, height as int);
            lemma_mul_is_distributive_add_other_way(chunk as int, i as int, 1);
        }
        let (head, tail) = remaining.split_at(chunk);
        remaining = tail;
        regions.push(Box::new(head));
        i += 1;
    }
    proof {
        lemma_row_offsets(i as int, rows as int, width as int, height as int);
    }
    regions.push(Box::new(remaining));
    regions
}

/// Cuts a row-major buffer of `height` rows into exclusive regions of whole
/// rows. What the holders of the regions write is what the buffer holds
/// afterwards.
fn split_rows_mut<'a, T>(v: &'a mut [T], height: usize, width: usize, num_slices: usize) -> (regions:
    Vec<Box<&'a mut [T]>>)
    requires
        old(v)@.len() == height * width,
        num_slices >= 1,
    ensures
        is_row_partition(
            contents_mut(regions@),
            old(v)@,
            height as nat,
            width as nat,
            num_slices as nat,
        ),
        final(v)@ == concat(Seq::new(regions@.len(), |i: int| final(*regions@[i])@)),
{
    let count: usize = slice_count(height, num_slices);
    let mut regions: Vec<Box<&'a mut [T]>> = Vec::new();
    if count == 0 {
        proof {
            lemma_no_regions(height as nat, num_slices as nat);
        }
        return regions;
    }
    let rows: usize = slice_len(height, num_slices);
    proof {
        lemma_partition_shape(height as nat, num_slices as nat);
        lemma_row_offsets(1, rows as int, width as int, height as int);
        assert(v@.len() == v.len());
    }
    let chunk: usize = rows * width;
    let ghost whole = v@;
    let ghost outcome = final(v)@;
    let mut remaining: &'a mut [T] = v;
    let mut i: usize = 0;
    while i < count - 1
        invariant
            whole.len() == height * width,
            count == region_count(height as nat, num_slices as nat),
            rows == region_size(height as nat, num_slices as nat),
            chunk == rows * width,
            count >= 1,
            i <= count - 1,
            regions@.len() == i,
            i * chunk <= whole.len(),
            remaining@ == whole.subrange(i * chunk, whole.len() as int),
            outcome == concat(Seq::new(i as nat, |j: int| final(*regions@[j])@))
                + final(remaining)@,
            forall|j: int|
                0 <= j < i ==> (*#[trigger] regions@[j])@ == region_of_rows(
                    whole,
                    height as nat,
                    width as nat,
                    num_slices as nat,
                    j as nat,
                ),
        decreases count - 1 - i,
    {
        proof {
            lemma_region_bounds(height as nat, num_slices as nat, i as nat);
            lemma_row_offsets(i as int, rows as int, width as int, height as int);
            lemma_row_offsets(i + 1, rows as int, width as int, height as int);
            lemma_mul_is_distributive_add_other_way(chunk as int, i as int, 1);
        }
        let ghost before = regions@;
        let (head, tail) = remaining.split_at_mut(chunk);
        remaining = tail;
        regions.push(Box::new(head));
        assert(Seq::new((i + 1) as nat, |j: int| final(*regions@[j])@).drop_last() == Seq::new(
            i as nat,
            |j: int| final(*before[j])@,
        ));
        i += 1;
    }
    proof {
        lemma_row_offsets(i as int, rows as int, width as int, height as int);
    }
    let ghost before = regions@;
    regions.push(Box::new(remaining));
    assert(Seq::new(regions@.len(), |j: int| final(*regions@[j])@).drop_last() == Seq::new(
        i as nat,
        |j: int| final(*before[j])@,
    ));
    regions
}

/// Cuts a vector into at most `num_slices` shared regions.
///
/// The regions are contiguous, in index order, and together hold every
/// element once: region `i` is the elements from `region_start` up to
/// `region_end`. There are never more regions than elements or than
/// `num_slices`; an empty vector gives no regions. A slice count of zero is
/// refused.
pub fn split_immut_vec<'a, T>(v: &'a Vec<T>, num_slices: usize) -> (result: Result<
    Vec<Box<&'a [T]>>,
    DispatchError,
>)
    ensures
        result is Err <==> num_slices == 0,
        result matches Err(e) ==> e == DispatchError::InvalidArgument,
        result matches Ok(regions) ==> {
            &&& is_partition(contents(regions@), v@, num_slices as nat)
            &&& regions@.len() <= num_slices
            &&& regions@.len() <= v@.len()
        },
{
    if num_slices == 0 {
        return Err(DispatchError::InvalidArgument);
    }
    let regions = split_rows(v.as_slice(), v.len(), 1, num_slices);
    proof {
        if v@.len() > 0 {
            lemma_partition_shape(v@.len(), num_slices as nat);
        }
    }
    Ok(regions)
}

/// Cuts a vector into at most `num_slices` exclusive regions.
///
/// The regions are those of `split_immut_vec`. No element belongs to two
/// of them, and what the holders of the regions leave in them, laid end to
/// end, is what the vector holds once they are done. A slice count of zero
/// is refused and leaves the vector as it was.
pub fn split_mut_vec<'a, T>(v: &'a mut Vec<T>, num_slices: usize) -> (result: Result<
    Vec<Box<&'a mut [T]>>,
    DispatchError,
>)
    ensures
        result is Err <==> num_slices == 0,
        result matches Err(e) ==> e == DispatchError::InvalidArgument && final(v)@ == old(v)@,
        result matches Ok(regions) ==> {
            &&& is_partition(contents_mut(regions@), old(v)@, num_slices as nat)
            &&& regions@.len() <= num_slices
            &&& regions@.len() <= old(v)@.len()
            &&& final(v)@ == concat(Seq::new(regions@.len(), |i: int| final(*regions@[i])@))
        },
{
    if num_slices == 0 {
        return Err(DispatchError::InvalidArgument);
    }
    let len: usize = v.len();
    let ghost whole = v@;
    let regions = split_rows_mut(v.as_mut_slice(), len, 1, num_slices);
    proof {
        if whole.len() > 0 {
            lemma_partition_shape(whole.len(), num_slices as nat);
        }
    }
    Ok(regions)
}

/// Cuts a row-major matrix of `height` rows and `width` columns into at
/// most `num_slices` shared regions of whole rows.
///
/// Region `i` is the rows from `region_start` up to `region_end`, counted
/// over `height`; no row is split between two regions. There are never more
/// regions than rows or than `num_slices`; a matrix without rows gives no
/// regions. A slice count of zero, or a buffer that does not hold exactly
/// `height * width` elements, is refused.
pub fn split_immut_matrix<'a, T>(
    v: &'a Vec<T>,
    height: usize,
    width: usize,
    num_slices: usize,
) -> (result: Result<Vec<Box<&'a [T]>>, DispatchError>)
    ensures
        result is Err <==> (num_slices == 0 || v@.len() != height * width),
        result matches Err(e) ==> e == DispatchError::InvalidArgument,
        result matches Ok(regions) ==> {
            &&& is_row_partition(
                contents(regions@),
                v@,
                height as nat,
                width as nat,
                num_slices as nat,
            )
            &&& regions@.len() <= num_slices
            &&& regions@.len() <= height
        },
{
    if num_slices == 0 || !holds_matrix(v.len(), height, width) {
        return Err(DispatchError::InvalidArgument);
    }
    let regions = split_rows(v.as_slice(), height, width, num_slices);
    proof {
        if height > 0 {
            lemma_partition_shape(height as nat, num_slices as nat);
        }
    }
    Ok(regions)
}

/// Cuts a row-major matrix of `height` rows and `width` columns into at
/// most `num_slices` exclusive regions of whole rows.
///
/// The regions are those of `split_immut_matrix`. No element belongs to
/// two of them, and what the holders of the regions leave in them, laid end
/// to end, is what the matrix holds once they are done. A slice count of
/// zero, or a buffer that does not hold exactly `height * width` elements,
/// is refused and leaves the buffer as it was.
pub fn split_mut_matrix<'a, T>(
    v: &'a mut Vec<T>,
    height: usize,
    width: usize,
    num_slices: usize,
) -> (result: Result<Vec<Box<&'a mut [T]>>, DispatchError>)
    ensures
        result is Err <==> (num_slices == 0 || old(v)@.len() != height * width),
        result matches Err(e) ==> e == DispatchError::InvalidArgument && final(v)@ == old(v)@,
        result matches Ok(regions) ==> {
            &&& is_row_partition(
                contents_mut(regions@),
                old(v)@,
                height as nat,
                width as nat,
                num_slices as nat,
            )
            &&& regions@.len() <= num_slices
            &&& regions@.len() <= height
            &&& final(v)@ == concat(Seq::new(regions@.len(), |i: int| final(*regions@[i])@))
        },
{
    if num_slices == 0 || !holds_matrix(v.len(), height, width) {
        return Err(DispatchError::InvalidArgument);
    }
    let regions = split_rows_mut(v.as_mut_slice(), height, width, num_slices);
    proof {
        if height > 0 {
            lemma_partition_shape(height as nat, num_slices as nat);
        }
    }
    Ok(regions)
}

} // verus!

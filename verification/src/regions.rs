//! Where the regions of a partition lie: how many there are, how large,
//! and the proof that they tile the buffer.

use vstd::arithmetic::div_mod::{
    lemma_fundamental_div_mod, lemma_fundamental_div_mod_converse, lemma_mod_pos_bound,
};
use vstd::arithmetic::mul::{lemma_mul_inequality, lemma_mul_is_distributive_add_other_way};
use vstd::prelude::*;

verus! {


/// The number of tasks that can be given work: never more than there are
/// units (elements, or rows) to hand out.
pub open spec fn effective_slices(units: nat, num_slices: nat) -> nat {
    if units < num_slices {
        units
    } else {
        num_slices
    }
}

/// The number of units in every region but possibly the last: the units
/// divided by the effective slice count, rounded up. Zero when there is
/// nothing to hand out or nobody to hand it to.
pub open spec fn region_size(units: nat, num_slices: nat) -> nat {
    let e = effective_slices(units, num_slices);
    if e == 0 {
        0
    } else {
        ((units + e - 1) / (e as int)) as nat
    }
}

/// The number of regions: as many full-sized regions as fit, plus one for a
/// remainder. Never more than `effective_slices`.
pub open spec fn region_count(units: nat, num_slices: nat) -> nat {
    let size = region_size(units, num_slices);
    if size == 0 {
        0
    } else {
        ((units + size - 1) / (size as int)) as nat
    }
}

/// The first unit of region `i`.
pub open spec fn region_start(units: nat, num_slices: nat, i: nat) -> nat {
    i * region_size(units, num_slices)
}

/// One past the last unit of region `i`: a full region's worth past its
/// start, cut off at the end of the buffer.
pub open spec fn region_end(units: nat, num_slices: nat, i: nat) -> nat {
    let next = (i + 1) * region_size(units, num_slices);
    if next < units {
        next
    } else {
        units
    }
}

/// The number of units in region `i`.
pub open spec fn region_len(units: nat, num_slices: nat, i: nat) -> nat {
    (region_end(units, num_slices, i) - region_start(units, num_slices, i)) as nat
}

/// The region that holds unit `u`.
pub open spec fn region_of(units: nat, num_slices: nat, u: nat) -> nat {
    (u as int / region_size(units, num_slices) as int) as nat
}

/// Whether unit `u` lies in region `i`.
pub open spec fn in_region(units: nat, num_slices: nat, i: nat, u: nat) -> bool {
    region_start(units, num_slices, i) <= u < region_end(units, num_slices, i)
}

/// Rounding a quotient up: `q = (x + d - 1) / d` is the least `q` with
/// `q * d >= x`.
proof fn lemma_ceil_div(x: int, d: int)
    requires
        x >= 0,
        d > 0,
    ensures
        ((x + d - 1) / d) * d >= x,
        ((x + d - 1) / d - 1) * d < x,
        (x + d - 1) / d >= 0,
        x > 0 ==> (x + d - 1) / d >= 1,
{
    let y = x + d - 1;
    let q = y / d;
    lemma_fundamental_div_mod(y, d);
    assert(d * q == q * d) by (nonlinear_arith);
    assert((q - 1) * d == q * d - d) by (nonlinear_arith);
    if q < 0 {
        assert(q * d <= -d) by (nonlinear_arith)
            requires
                q <= -1,
                d > 0,
        ;
    }
    if x > 0 && q < 1 {
        assert(q * d <= 0) by (nonlinear_arith)
            requires
                q <= 0,
                d > 0,
        ;
    }
}

/// With work to hand out and at least one slice asked for, the region size
/// is at least one unit and the regions are at least one and at most as many
/// as the effective slice count.
pub proof fn lemma_partition_shape(units: nat, num_slices: nat)
    requires
        units >= 1,
        num_slices >= 1,
    ensures
        1 <= region_size(units, num_slices) <= units,
        1 <= region_count(units, num_slices) <= effective_slices(units, num_slices),
        effective_slices(units, num_slices) <= units,
        effective_slices(units, num_slices) <= num_slices,
        (region_count(units, num_slices) - 1) * region_size(units, num_slices) < units,
        units <= region_count(units, num_slices) * region_size(units, num_slices),
{
    let e = effective_slices(units, num_slices) as int;
    let size = region_size(units, num_slices) as int;
    let count = region_count(units, num_slices) as int;
    let u = units as int;
    lemma_ceil_div(u, e);
    assert(size <= u) by (nonlinear_arith)
        requires
            (size - 1) * e < u,
            e >= 1,
            size >= 1,
    ;
    lemma_ceil_div(u, size);
    assert(count <= e) by (nonlinear_arith)
        requires
            (count - 1) * size < u,
            size * e >= u,
            size >= 1,
            e >= 1,
            count >= 1,
    ;
}

/// Where region `i` lies, for every region that exists: it is not empty,
/// it ends inside the buffer, it begins where its predecessor ended, the
/// first begins at zero and the last ends with the buffer. Every region but
/// the last has the full region size; the last has at least one unit and at
/// most the full size.
pub proof fn lemma_region_bounds(units: nat, num_slices: nat, i: nat)
    requires
        i < region_count(units, num_slices),
    ensures
        region_start(units, num_slices, i) < region_end(units, num_slices, i) <= units,
        1 <= region_len(units, num_slices, i) <= region_size(units, num_slices),
        i == 0 ==> region_start(units, num_slices, i) == 0,
        i + 1 < region_count(units, num_slices) ==> {
            &&& region_end(units, num_slices, i) == region_start(units, num_slices, i + 1)
            &&& region_len(units, num_slices, i) == region_size(units, num_slices)
        },
        i + 1 == region_count(units, num_slices) ==> region_end(units, num_slices, i) == units,
{
    lemma_partition_shape(units, num_slices);
    let size = region_size(units, num_slices) as int;
    let count = region_count(units, num_slices) as int;
    let k = i as int;
    lemma_mul_is_distributive_add_other_way(size, k, 1);
    if k + 1 < count {
        lemma_mul_inequality(k + 1, count - 1, size);
    }
}

/// Regions come in index order and do not overlap: a later region begins
/// at or after the end of every earlier one.
pub proof fn lemma_regions_ordered(units: nat, num_slices: nat, i: nat, j: nat)
    requires
        i < j,
        j < region_count(units, num_slices),
    ensures
        region_end(units, num_slices, i) <= region_start(units, num_slices, j),
{
    let size = region_size(units, num_slices) as int;
    lemma_mul_inequality((i + 1) as int, j as int, size);
}

/// Every unit of the buffer lies in exactly one region: unit `u` is in
/// region `u / region_size`, and in no other.
pub proof fn lemma_unit_in_one_region(units: nat, num_slices: nat, u: nat)
    requires
        num_slices >= 1,
        u < units,
    ensures
        region_of(units, num_slices, u) < region_count(units, num_slices),
        in_region(units, num_slices, region_of(units, num_slices, u), u),
        forall|i: nat|
            i < region_count(units, num_slices) && #[trigger] in_region(units, num_slices, i, u)
                ==> i == region_of(units, num_slices, u),
{
    lemma_partition_shape(units, num_slices);
    let size = region_size(units, num_slices) as int;
    let count = region_count(units, num_slices) as int;
    let r = region_of(units, num_slices, u) as int;
    lemma_mod_pos_bound(u as int, size);
    assert(size * r == r * size) by (nonlinear_arith);
    lemma_mul_is_distributive_add_other_way(size, r, 1);
    assert(r >= 0) by (nonlinear_arith)
        requires
            (r + 1) * size > 0,
            size >= 1,
    ;
    if r >= count {
        lemma_mul_inequality(count, r, size);
    }
    assert forall|i: nat|
        i < region_count(units, num_slices) && #[trigger] in_region(
            units,
            num_slices,
            i,
            u,
        ) implies i == region_of(units, num_slices, u) by {
        let k = i as int;
        if k < r {
            lemma_mul_inequality(k + 1, r, size);
        }
        if k > r {
            lemma_mul_inequality(r + 1, k, size);
        }
    }
}

/// The regions of a buffer that is not empty, cut into at least one slice,
/// hold every unit exactly once, come in increasing order without
/// overlapping, and none is shorter than the last, which holds at least one
/// unit.
pub proof fn lemma_partition_exact(units: nat, num_slices: nat)
    requires
        units >= 1,
        num_slices >= 1,
    ensures
        region_count(units, num_slices) >= 1,
        forall|u: nat|
            u < units ==> {
                &&& #[trigger] region_of(units, num_slices, u) < region_count(units, num_slices)
                &&& in_region(units, num_slices, region_of(units, num_slices, u), u)
            },
        forall|i: nat, u: nat|
            i < region_count(units, num_slices) && u < units && #[trigger] in_region(
                units,
                num_slices,
                i,
                u,
            ) ==> i == region_of(units, num_slices, u),
        forall|i: nat, j: nat|
            i < j < region_count(units, num_slices) ==> #[trigger] region_end(units, num_slices, i)
                <= #[trigger] region_start(units, num_slices, j),
        forall|i: nat|
            i < region_count(units, num_slices) ==> 1 <= region_len(
                units,
                num_slices,
                (region_count(units, num_slices) - 1) as nat,
            ) <= #[trigger] region_len(units, num_slices, i),
{
    lemma_partition_shape(units, num_slices);
    let count = region_count(units, num_slices);
    assert forall|u: nat| u < units implies {
        &&& #[trigger] region_of(units, num_slices, u) < region_count(units, num_slices)
        &&& in_region(units, num_slices, region_of(units, num_slices, u), u)
    } by {
        lemma_unit_in_one_region(units, num_slices, u);
    }
    assert forall|i: nat, u: nat|
        i < region_count(units, num_slices) && u < units && #[trigger] in_region(
            units,
            num_slices,
            i,
            u,
        ) implies i == region_of(units, num_slices, u) by {
        lemma_unit_in_one_region(units, num_slices, u);
    }
    assert forall|i: nat, j: nat| i < j < region_count(units, num_slices) implies #[trigger] region_end(
        units,
        num_slices,
        i,
    ) <= #[trigger] region_start(units, num_slices, j) by {
        lemma_regions_ordered(units, num_slices, i, j);
    }
    assert forall|i: nat| i < region_count(units, num_slices) implies 1 <= region_len(
        units,
        num_slices,
        (region_count(units, num_slices) - 1) as nat,
    ) <= #[trigger] region_len(units, num_slices, i) by {
        lemma_region_bounds(units, num_slices, i);
        lemma_region_bounds(units, num_slices, (count - 1) as nat);
    }
}

/// Asking for at least as many slices as there are units gives every unit
/// a region of its own, and no region more.
pub proof fn lemma_one_unit_per_region(units: nat, num_slices: nat)
    requires
        units >= 1,
        num_slices >= units,
    ensures
        region_size(units, num_slices) == 1,
        region_count(units, num_slices) == units,
{
    let u = units as int;
    lemma_fundamental_div_mod_converse(u + u - 1, u, 1, u - 1);
}

/// There are no regions exactly when there is nothing to hand out or no
/// slice was asked for.
pub proof fn lemma_no_regions(units: nat, num_slices: nat)
    ensures
        region_count(units, num_slices) == 0 <==> (units == 0 || num_slices == 0),
{
    if units >= 1 && num_slices >= 1 {
        lemma_partition_shape(units, num_slices);
    }
}

/// `x / d` rounded up, without the overflow that `x + d - 1` could run into.
fn ceil_div(x: usize, d: usize) -> (q: usize)
    requires
        d > 0,
    ensures
        q == (x + d - 1) / (d as int),
{
    let q: usize = x / d;
    let r: usize = x % d;
    proof {
        lemma_fundamental_div_mod(x as int, d as int);
        assert((d as int) * (q as int) == (q as int) * (d as int)) by (nonlinear_arith);
        if r == 0 {
            lemma_fundamental_div_mod_converse(x + d - 1, d as int, q as int, d - 1);
        } else {
            lemma_mul_is_distributive_add_other_way(d as int, q as int, 1);
            lemma_fundamental_div_mod_converse(x + d - 1, d as int, q + 1, r - 1);
            assert(q < x) by (nonlinear_arith)
                requires
                    x == q * d + r,
                    r > 0,
                    d > 0,
            ;
        }
    }
    if r == 0 {
        q
    } else {
        q + 1
    }
}

/// The region size for `units` units cut into `num_slices` slices.
pub fn slice_len(units: usize, num_slices: usize) -> (size: usize)
    ensures
        size == region_size(units as nat, num_slices as nat),
{
    let e: usize = if units < num_slices {
        units
    } else {
        num_slices
    };
    if e == 0 {
        0
    } else {
        proof {
            lemma_partition_shape(units as nat, num_slices as nat);
        }
        ceil_div(units, e)
    }
}

/// The number of regions for `units` units cut into `num_slices` slices.
pub fn slice_count(units: usize, num_slices: usize) -> (count: usize)
    ensures
        count == region_count(units as nat, num_slices as nat),
{
    let size: usize = slice_len(units, num_slices);
    if size == 0 {
        0
    } else {
        proof {
            lemma_partition_shape(units as nat, num_slices as nat);
        }
        ceil_div(units, size)
    }
}

/// The units of region `i`: its first unit and one past its last.
pub fn region_bounds(units: usize, num_slices: usize, i: usize) -> (range: (usize, usize))
    requires
        i < region_count(units as nat, num_slices as nat),
    ensures
        range.0 == region_start(units as nat, num_slices as nat, i as nat),
        range.1 == region_end(units as nat, num_slices as nat, i as nat),
{
    let size: usize = slice_len(units, num_slices);
    proof {
        lemma_region_bounds(units as nat, num_slices as nat, i as nat);
        lemma_mul_is_distributive_add_other_way(size as int, i as int, 1);
    }
    let start: usize = i * size;
    let end: usize = if units - start <= size {
        units
    } else {
        start + size
    };
    (start, end)
}

/// The units that task `i` works on, as `region_bounds` gives them, or
/// `None` where there is no region `i`: tasks beyond `region_count` have
/// nothing to do.
pub fn task_range(units: usize, num_slices: usize, i: usize) -> (range: Option<(usize, usize)>)
    ensures
        range is Some <==> i < region_count(units as nat, num_slices as nat),
        range matches Some((start, end)) ==> {
            &&& start == region_start(units as nat, num_slices as nat, i as nat)
            &&& end == region_end(units as nat, num_slices as nat, i as nat)
        },
{
    if i < slice_count(units, num_slices) {
        Some(region_bounds(units, num_slices, i))
    } else {
        None
    }
}

} // verus!

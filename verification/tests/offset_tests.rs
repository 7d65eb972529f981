use par_kernels::dispatch::{add_vec, matmul};
use par_kernels::error::DispatchError;
use par_kernels::offset::{add_range, add_vec_by_offset, matmul_by_offset, matmul_rows};
use par_kernels::regions::task_range;

fn ramp(len: usize, step: i32) -> Vec<i32> {
    let mut v = Vec::new();
    for i in 0..len {
        v.push((i as i32).wrapping_mul(step).wrapping_sub(17));
    }
    v
}

#[test]
fn add_range_writes_only_inside_its_range() {
    let a: Vec<i32> = vec![1, 2, 3, 4, 5];
    let b: Vec<i32> = vec![10, 20, 30, 40, 50];
    let mut c: Vec<i32> = vec![-1; 5];
    add_range(&a[..], &b[..], &mut c[..], 1, 4);
    assert_eq!(c, vec![-1, 22, 33, 44, -1]);
    add_range(&a[..], &b[..], &mut c[..], 2, 2);
    assert_eq!(c, vec![-1, 22, 33, 44, -1]);
    add_range(&a[..], &b[..], &mut c[..], 0, 5);
    assert_eq!(c, vec![11, 22, 33, 44, 55]);
}

#[test]
fn add_by_offset_ten_elements_with_four_workers() {
    let a: Vec<i32> = vec![1; 10];
    let b: Vec<i32> = vec![2; 10];
    let mut out: Vec<i32> = vec![0; 10];
    assert_eq!(add_vec_by_offset(&a, &b, &mut out, 4), Ok(()));
    assert_eq!(out, vec![3; 10]);
}

#[test]
fn add_by_offset_agrees_with_add_by_regions() {
    for len in 0..20usize {
        let a = ramp(len, 3);
        let b = ramp(len, -5);
        for workers in 1..(len + 4) {
            let mut by_regions: Vec<i32> = vec![0; len];
            let mut by_offset: Vec<i32> = vec![1; len];
            assert_eq!(add_vec(&a, &b, &mut by_regions, workers), Ok(()));
            assert_eq!(add_vec_by_offset(&a, &b, &mut by_offset, workers), Ok(()));
            assert_eq!(by_regions, by_offset);
        }
    }
}

#[test]
fn add_by_offset_refuses_what_add_by_regions_refuses() {
    let a: Vec<i32> = vec![1; 3];
    let b: Vec<i32> = vec![2; 3];
    let mut out: Vec<i32> = vec![7; 3];
    assert_eq!(add_vec_by_offset(&a, &b, &mut out, 0), Err(DispatchError::InvalidArgument));
    assert_eq!(out, vec![7; 3]);
    let longer: Vec<i32> = vec![2; 4];
    assert_eq!(add_vec_by_offset(&a, &longer, &mut out, 2), Err(DispatchError::InvalidArgument));
    assert_eq!(add_vec_by_offset(&longer, &b, &mut out, 2), Err(DispatchError::InvalidArgument));
    assert_eq!(out, vec![7; 3]);
    let mut short: Vec<i32> = vec![7; 2];
    assert_eq!(add_vec_by_offset(&a, &b, &mut short, 2), Err(DispatchError::InvalidArgument));
    assert_eq!(short, vec![7; 2]);
}

#[test]
fn matmul_rows_writes_only_its_rows() {
    // 3x2 times 2x2
    let a: Vec<i32> = vec![1, 2, 3, 4, 5, 6];
    let b: Vec<i32> = vec![1, 1, 2, 0];
    let mut c: Vec<i32> = vec![-1; 6];
    matmul_rows(&a[..], &b[..], &mut c[..], 1, 2, 3, 2, 2);
    assert_eq!(c, vec![-1, -1, 11, 3, -1, -1]);
    matmul_rows(&a[..], &b[..], &mut c[..], 2, 2, 3, 2, 2);
    assert_eq!(c, vec![-1, -1, 11, 3, -1, -1]);
    matmul_rows(&a[..], &b[..], &mut c[..], 0, 3, 3, 2, 2);
    assert_eq!(c, vec![5, 1, 11, 3, 17, 5]);
}

#[test]
fn matmul_rows_without_inner_dimension_zeroes_its_rows() {
    let a: Vec<i32> = Vec::new();
    let b: Vec<i32> = Vec::new();
    let mut c: Vec<i32> = vec![4; 6];
    matmul_rows(&a[..], &b[..], &mut c[..], 1, 3, 3, 2, 0);
    assert_eq!(c, vec![4, 4, 0, 0, 0, 0]);
}

#[test]
fn matmul_by_offset_ten_by_ten_of_ones() {
    let a: Vec<i32> = vec![1; 100];
    let b: Vec<i32> = vec![1; 100];
    let mut out: Vec<i32> = vec![10; 100];
    assert_eq!(matmul_by_offset(&a, &b, &mut out, 10, 10, 10, 4), Ok(()));
    assert_eq!(out, vec![10; 100]);
}

#[test]
fn matmul_by_offset_agrees_with_matmul_by_regions() {
    let sizes = [0usize, 1, 5, 17];
    let workers = [1usize, 2, 8];
    for &m in sizes.iter() {
        for &n in sizes.iter() {
            for &k in sizes.iter() {
                let a = ramp(m * k, 7);
                let b = ramp(k * n, -3);
                for &w in workers.iter() {
                    let mut by_regions: Vec<i32> = vec![5; m * n];
                    let mut by_offset: Vec<i32> = vec![6; m * n];
                    assert_eq!(matmul(&a, &b, &mut by_regions, m, n, k, w), Ok(()));
                    assert_eq!(matmul_by_offset(&a, &b, &mut by_offset, m, n, k, w), Ok(()));
                    assert_eq!(by_regions, by_offset);
                }
            }
        }
    }
}

#[test]
fn matmul_by_offset_sizes_blocks_by_rows_not_columns() {
    // two rows, five columns, two workers: one row each
    let a: Vec<i32> = vec![1, 2];
    let b: Vec<i32> = vec![1, 2, 3, 4, 5];
    let mut out: Vec<i32> = vec![9; 10];
    assert_eq!(matmul_by_offset(&a, &b, &mut out, 2, 5, 1, 2), Ok(()));
    assert_eq!(out, vec![1, 2, 3, 4, 5, 2, 4, 6, 8, 10]);
}

#[test]
fn matmul_by_offset_refuses_what_matmul_by_regions_refuses() {
    let a: Vec<i32> = vec![1; 6];
    let b: Vec<i32> = vec![1; 6];
    let mut out: Vec<i32> = vec![9; 4];
    assert_eq!(
        matmul_by_offset(&a, &b, &mut out, 2, 2, 3, 0),
        Err(DispatchError::InvalidArgument)
    );
    assert_eq!(
        matmul_by_offset(&a, &b, &mut out, 3, 2, 3, 2),
        Err(DispatchError::InvalidArgument)
    );
    assert_eq!(
        matmul_by_offset(&a, &b, &mut out, 2, 2, 2, 2),
        Err(DispatchError::InvalidArgument)
    );
    assert_eq!(out, vec![9; 4]);
}

#[test]
fn add_ranges_in_any_order_give_the_sum() {
    let a = ramp(10, 3);
    let b = ramp(10, -5);
    let mut expected: Vec<i32> = vec![0; 10];
    assert_eq!(add_vec(&a, &b, &mut expected, 4), Ok(()));
    // regions of ten elements in four slices: 0..3, 3..6, 6..9, 9..10
    let schedules: [&[usize]; 4] = [&[3, 1, 0, 2], &[2, 2, 0, 3, 1, 0], &[0, 1, 2, 3], &[3, 2, 1, 0]];
    for schedule in schedules.iter() {
        let mut out: Vec<i32> = vec![-9; 10];
        for &task in schedule.iter() {
            let (start, end) = task_range(10, 4, task).unwrap();
            add_range(&a[..], &b[..], &mut out[..], start, end);
        }
        assert_eq!(out, expected);
    }
}

#[test]
fn matmul_rows_in_any_order_give_the_product() {
    let (m, n, k) = (5usize, 3usize, 4usize);
    let a = ramp(m * k, 7);
    let b = ramp(k * n, -3);
    let mut expected: Vec<i32> = vec![0; m * n];
    assert_eq!(matmul(&a, &b, &mut expected, m, n, k, 2), Ok(()));
    // five rows in two slices: rows 0..3 and 3..5
    let schedules: [&[usize]; 3] = [&[1, 0], &[0, 1], &[1, 1, 0, 1]];
    for schedule in schedules.iter() {
        let mut out: Vec<i32> = vec![-9; m * n];
        for &task in schedule.iter() {
            let (first, last) = task_range(m, 2, task).unwrap();
            matmul_rows(&a[..], &b[..], &mut out[..], first, last, m, n, k);
        }
        assert_eq!(out, expected);
    }
}

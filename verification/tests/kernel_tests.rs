use par_kernels::kernel::{add_vec_slice, matmul_slice};
use par_kernels::numeric::Numeric;

#[test]
fn add_slice_adds_elementwise() {
    let a: Vec<i32> = vec![1, 2, 3, -4];
    let b: Vec<i32> = vec![10, 20, 30, 40];
    let mut c: Vec<i32> = vec![7; 4];
    add_vec_slice(Box::new(&a[..]), Box::new(&b[..]), Box::new(&mut c[..]));
    assert_eq!(c, vec![11, 22, 33, 36]);
    assert_eq!(a, vec![1, 2, 3, -4]);
    assert_eq!(b, vec![10, 20, 30, 40]);
}

#[test]
fn add_slice_on_empty_regions() {
    let a: Vec<i64> = Vec::new();
    let b: Vec<i64> = Vec::new();
    let mut c: Vec<i64> = Vec::new();
    add_vec_slice(Box::new(&a[..]), Box::new(&b[..]), Box::new(&mut c[..]));
    assert!(c.is_empty());
}

#[test]
fn add_slice_wraps() {
    let a: Vec<u8> = vec![200, 255, 0];
    let b: Vec<u8> = vec![100, 1, 0];
    let mut c: Vec<u8> = vec![9; 3];
    add_vec_slice(Box::new(&a[..]), Box::new(&b[..]), Box::new(&mut c[..]));
    assert_eq!(c, vec![44, 0, 0]);
    let a: Vec<i32> = vec![i32::MAX, i32::MIN];
    let b: Vec<i32> = vec![1, -1];
    let mut c: Vec<i32> = vec![0; 2];
    add_vec_slice(Box::new(&a[..]), Box::new(&b[..]), Box::new(&mut c[..]));
    assert_eq!(c, vec![i32::MIN, i32::MAX]);
}

#[test]
fn add_slice_touches_only_its_region() {
    let a: Vec<i32> = vec![1, 1, 1, 1, 1, 1];
    let b: Vec<i32> = vec![2, 2, 2, 2, 2, 2];
    let mut c: Vec<i32> = vec![-1; 6];
    add_vec_slice(Box::new(&a[2..4]), Box::new(&b[2..4]), Box::new(&mut c[2..4]));
    assert_eq!(c, vec![-1, -1, 3, 3, -1, -1]);
}

#[test]
fn matmul_slice_two_by_two() {
    // [1 2]   [5 6]   [19 22]
    // [3 4] x [7 8] = [43 50]
    let a: Vec<i32> = vec![1, 2, 3, 4];
    let b: Vec<i32> = vec![5, 6, 7, 8];
    let mut c: Vec<i32> = vec![1000; 4];
    matmul_slice(Box::new(&a[..]), &b[..], Box::new(&mut c[..]), 2, 2, 2);
    assert_eq!(c, vec![19, 22, 43, 50]);
}

#[test]
fn matmul_slice_rectangular() {
    // 2x3 times 3x4
    let a: Vec<i64> = vec![1, 2, 3, 4, 5, 6];
    let b: Vec<i64> = vec![1, 0, 2, 0, 0, 1, 0, 2, 3, 0, 0, 1];
    let mut c: Vec<i64> = vec![-5; 8];
    matmul_slice(Box::new(&a[..]), &b[..], Box::new(&mut c[..]), 2, 4, 3);
    assert_eq!(c, vec![10, 2, 2, 7, 22, 5, 8, 16]);
}

#[test]
fn matmul_slice_discards_what_the_output_held() {
    let a: Vec<i32> = vec![1; 9];
    let b: Vec<i32> = vec![1; 9];
    let mut c: Vec<i32> = vec![10; 9];
    matmul_slice(Box::new(&a[..]), &b[..], Box::new(&mut c[..]), 3, 3, 3);
    assert_eq!(c, vec![3; 9]);
    matmul_slice(Box::new(&a[..]), &b[..], Box::new(&mut c[..]), 3, 3, 3);
    assert_eq!(c, vec![3; 9]);
}

#[test]
fn matmul_slice_without_inner_dimension_is_zero() {
    let a: Vec<i32> = Vec::new();
    let b: Vec<i32> = Vec::new();
    let mut c: Vec<i32> = vec![8; 6];
    matmul_slice(Box::new(&a[..]), &b[..], Box::new(&mut c[..]), 2, 3, 0);
    assert_eq!(c, vec![0; 6]);
}

#[test]
fn matmul_slice_without_rows_or_columns_writes_nothing() {
    let a: Vec<i32> = Vec::new();
    let b: Vec<i32> = vec![1, 2, 3, 4, 5, 6];
    let mut c: Vec<i32> = Vec::new();
    matmul_slice(Box::new(&a[..]), &b[..], Box::new(&mut c[..]), 0, 3, 2);
    assert!(c.is_empty());
    let a: Vec<i32> = vec![1, 2, 3, 4];
    let b: Vec<i32> = Vec::new();
    matmul_slice(Box::new(&a[..]), &b[..], Box::new(&mut c[..]), 2, 0, 2);
    assert!(c.is_empty());
}

#[test]
fn matmul_slice_wraps() {
    let a: Vec<u8> = vec![16, 16];
    let b: Vec<u8> = vec![16, 1];
    let mut c: Vec<u8> = vec![0; 1];
    // 16 * 16 + 16 * 1 = 272 = 16 modulo 256
    matmul_slice(Box::new(&a[..]), &b[..], Box::new(&mut c[..]), 1, 1, 2);
    assert_eq!(c, vec![16]);
    let a: Vec<i8> = vec![100];
    let b: Vec<i8> = vec![2];
    let mut c: Vec<i8> = vec![0; 1];
    matmul_slice(Box::new(&a[..]), &b[..], Box::new(&mut c[..]), 1, 1, 1);
    assert_eq!(c, vec![-56]);
}

#[test]
fn matmul_slice_on_a_block_of_rows() {
    // rows 1 and 2 of a 3x2 matrix times a 2x2 matrix
    let a: Vec<i32> = vec![1, 2, 3, 4, 5, 6];
    let b: Vec<i32> = vec![1, 1, 2, 0];
    let mut c: Vec<i32> = vec![-1; 6];
    matmul_slice(Box::new(&a[2..6]), &b[..], Box::new(&mut c[2..6]), 2, 2, 2);
    assert_eq!(c, vec![-1, -1, 11, 3, 17, 5]);
}

fn zero_of<T: Numeric>() -> T {
    T::zero()
}

fn fused<T: Numeric>(x: T, y: T, z: T) -> T {
    x.times(y).plus(z)
}

#[test]
fn plus_and_times_on_generic_values() {
    assert_eq!(fused(3i32, 4, 5), 17);
    assert_eq!(fused(3u64, 4, 5), 17);
    assert_eq!(fused(-3i16, 4, 5), -7);
    assert_eq!(fused(zero_of::<i32>(), 4, 5), 5);
}

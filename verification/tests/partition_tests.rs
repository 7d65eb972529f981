use par_kernels::error::DispatchError;
use par_kernels::partition::{
    holds_matrix, split_immut_matrix, split_immut_vec, split_mut_matrix, split_mut_vec,
};
use par_kernels::regions::{region_bounds, slice_count, slice_len, task_range};

fn lengths(regions: &Vec<Box<&[u32]>>) -> Vec<usize> {
    let mut out = Vec::new();
    for r in regions.iter() {
        out.push(r.len());
    }
    out
}

fn numbered(len: usize) -> Vec<u32> {
    let mut v = Vec::new();
    for i in 0..len {
        v.push(i as u32);
    }
    v
}

#[test]
fn ten_elements_in_four_slices() {
    let v = numbered(10);
    let regions = split_immut_vec(&v, 4).unwrap();
    assert_eq!(lengths(&regions), vec![3, 3, 3, 1]);
    assert_eq!(*regions[0], &[0u32, 1, 2][..]);
    assert_eq!(*regions[1], &[3u32, 4, 5][..]);
    assert_eq!(*regions[2], &[6u32, 7, 8][..]);
    assert_eq!(*regions[3], &[9u32][..]);
}

#[test]
fn ten_elements_in_six_slices_gives_five_full_regions() {
    let v = numbered(10);
    let regions = split_immut_vec(&v, 6).unwrap();
    assert_eq!(lengths(&regions), vec![2, 2, 2, 2, 2]);
}

#[test]
fn ten_elements_in_eight_slices_gives_five_full_regions() {
    let v = numbered(10);
    let regions = split_immut_vec(&v, 8).unwrap();
    assert_eq!(lengths(&regions), vec![2, 2, 2, 2, 2]);
    assert_eq!(*regions[4], &[8u32, 9][..]);
}

#[test]
fn one_slice_is_the_whole_vector() {
    let v = numbered(10);
    let regions = split_immut_vec(&v, 1).unwrap();
    assert_eq!(regions.len(), 1);
    assert_eq!(*regions[0], &v[..]);
}

#[test]
fn as_many_slices_as_elements() {
    let v = numbered(10);
    let regions = split_immut_vec(&v, 10).unwrap();
    assert_eq!(lengths(&regions), vec![1; 10]);
}

#[test]
fn more_slices_than_elements_clamps() {
    let v = numbered(3);
    let regions = split_immut_vec(&v, 100).unwrap();
    assert_eq!(lengths(&regions), vec![1, 1, 1]);
    let regions = split_immut_vec(&v, usize::MAX).unwrap();
    assert_eq!(lengths(&regions), vec![1, 1, 1]);
}

#[test]
fn empty_vector_has_no_regions() {
    let v: Vec<u32> = Vec::new();
    let regions = split_immut_vec(&v, 4).unwrap();
    assert!(regions.is_empty());
    let mut w: Vec<u32> = Vec::new();
    let regions = split_mut_vec(&mut w, 4).unwrap();
    assert!(regions.is_empty());
}

#[test]
fn zero_slices_is_refused() {
    let v = numbered(5);
    assert_eq!(split_immut_vec(&v, 0).err(), Some(DispatchError::InvalidArgument));
    let mut w = numbered(5);
    assert_eq!(split_mut_vec(&mut w, 0).err(), Some(DispatchError::InvalidArgument));
    assert_eq!(w, numbered(5));
    let empty: Vec<u32> = Vec::new();
    assert_eq!(split_immut_vec(&empty, 0).err(), Some(DispatchError::InvalidArgument));
    assert_eq!(split_immut_matrix(&v, 5, 1, 0).err(), Some(DispatchError::InvalidArgument));
    assert_eq!(split_mut_matrix(&mut w, 5, 1, 0).err(), Some(DispatchError::InvalidArgument));
    assert_eq!(w, numbered(5));
}

#[test]
fn regions_cover_every_index_once_in_order() {
    for len in 1..40usize {
        for slices in 1..(len + 4) {
            let v = numbered(len);
            let regions = split_immut_vec(&v, slices).unwrap();
            let mut seen: Vec<u32> = Vec::new();
            for r in regions.iter() {
                assert!(r.len() >= 1);
                for x in r.iter() {
                    seen.push(*x);
                }
            }
            assert_eq!(seen, v);
            assert!(regions.len() <= slices);
            assert!(regions.len() <= len);
            let last = regions[regions.len() - 1].len();
            for r in regions.iter() {
                assert!(last <= r.len());
            }
            let full = regions[0].len();
            for i in 0..regions.len() - 1 {
                assert_eq!(regions[i].len(), full);
            }
        }
    }
}

#[test]
fn writes_through_exclusive_regions_land_in_the_vector() {
    let mut v = numbered(10);
    {
        let regions = split_mut_vec(&mut v, 4).unwrap();
        assert_eq!(regions.len(), 4);
        let mut tag = 100u32;
        for mut r in regions {
            assert!(r.len() == 3 || r.len() == 1);
            for x in r.iter_mut() {
                *x = tag;
            }
            tag += 100;
        }
    }
    assert_eq!(v, vec![100, 100, 100, 200, 200, 200, 300, 300, 300, 400]);
}

#[test]
fn exclusive_regions_hold_what_the_vector_held() {
    let mut v = numbered(7);
    let regions = split_mut_vec(&mut v, 3).unwrap();
    assert_eq!(regions.len(), 3);
    assert_eq!(&**regions[0], &[0u32, 1, 2][..]);
    assert_eq!(&**regions[1], &[3u32, 4, 5][..]);
    assert_eq!(&**regions[2], &[6u32][..]);
}

#[test]
fn matrix_regions_are_whole_rows() {
    // five rows of three
    let v = numbered(15);
    let regions = split_immut_matrix(&v, 5, 3, 2).unwrap();
    assert_eq!(lengths(&regions), vec![9, 6]);
    assert_eq!(*regions[1], &[9u32, 10, 11, 12, 13, 14][..]);
    let regions = split_immut_matrix(&v, 5, 3, 4).unwrap();
    assert_eq!(lengths(&regions), vec![6, 6, 3]);
    let regions = split_immut_matrix(&v, 5, 3, 9).unwrap();
    assert_eq!(lengths(&regions), vec![3, 3, 3, 3, 3]);
    let regions = split_immut_matrix(&v, 3, 5, 9).unwrap();
    assert_eq!(lengths(&regions), vec![5, 5, 5]);
}

#[test]
fn matrix_without_columns_still_has_row_regions() {
    let v: Vec<u32> = Vec::new();
    let regions = split_immut_matrix(&v, 5, 0, 2).unwrap();
    assert_eq!(lengths(&regions), vec![0, 0]);
}

#[test]
fn matrix_without_rows_has_no_regions() {
    let v: Vec<u32> = Vec::new();
    let regions = split_immut_matrix(&v, 0, 7, 2).unwrap();
    assert!(regions.is_empty());
    let mut w: Vec<u32> = Vec::new();
    let regions = split_mut_matrix(&mut w, 0, 7, 2).unwrap();
    assert!(regions.is_empty());
}

#[test]
fn matrix_with_wrong_length_is_refused() {
    let v = numbered(14);
    assert_eq!(split_immut_matrix(&v, 5, 3, 2).err(), Some(DispatchError::InvalidArgument));
    let mut w = numbered(16);
    assert_eq!(split_mut_matrix(&mut w, 5, 3, 2).err(), Some(DispatchError::InvalidArgument));
    assert_eq!(w, numbered(16));
    assert_eq!(
        split_immut_matrix(&v, usize::MAX, 2, 2).err(),
        Some(DispatchError::InvalidArgument)
    );
}

#[test]
fn writes_through_matrix_regions_land_in_the_matrix() {
    let mut v: Vec<u32> = vec![0; 10];
    {
        let regions = split_mut_matrix(&mut v, 5, 2, 2).unwrap();
        assert_eq!(regions.len(), 2);
        let mut tag = 1u32;
        for mut r in regions {
            for x in r.iter_mut() {
                *x = tag;
            }
            tag += 1;
        }
    }
    assert_eq!(v, vec![1, 1, 1, 1, 1, 1, 2, 2, 2, 2]);
}

#[test]
fn slice_len_rounds_up() {
    assert_eq!(slice_len(10, 4), 3);
    assert_eq!(slice_len(10, 3), 4);
    assert_eq!(slice_len(10, 5), 2);
    assert_eq!(slice_len(10, 6), 2);
    assert_eq!(slice_len(10, 10), 1);
    assert_eq!(slice_len(10, 11), 1);
    assert_eq!(slice_len(10, 1), 10);
    assert_eq!(slice_len(0, 4), 0);
    assert_eq!(slice_len(10, 0), 0);
    assert_eq!(slice_len(usize::MAX, 2), usize::MAX / 2 + 1);
    assert_eq!(slice_len(usize::MAX, usize::MAX), 1);
}

#[test]
fn slice_count_never_exceeds_the_request() {
    assert_eq!(slice_count(10, 4), 4);
    assert_eq!(slice_count(10, 3), 3);
    assert_eq!(slice_count(10, 6), 5);
    assert_eq!(slice_count(10, 7), 5);
    assert_eq!(slice_count(10, 9), 5);
    assert_eq!(slice_count(10, 10), 10);
    assert_eq!(slice_count(10, 1000), 10);
    assert_eq!(slice_count(0, 4), 0);
    assert_eq!(slice_count(10, 0), 0);
    assert_eq!(slice_count(17, 8), 6);
    assert_eq!(slice_count(usize::MAX, 2), 2);
}

#[test]
fn task_ranges_for_ten_in_four() {
    assert_eq!(task_range(10, 4, 0), Some((0, 3)));
    assert_eq!(task_range(10, 4, 1), Some((3, 6)));
    assert_eq!(task_range(10, 4, 2), Some((6, 9)));
    assert_eq!(task_range(10, 4, 3), Some((9, 10)));
    assert_eq!(task_range(10, 4, 4), None);
    assert_eq!(task_range(10, 6, 4), Some((8, 10)));
    assert_eq!(task_range(10, 6, 5), None);
    assert_eq!(task_range(0, 4, 0), None);
    assert_eq!(task_range(10, 0, 0), None);
    assert_eq!(
        task_range(usize::MAX, 2, 1),
        Some((usize::MAX / 2 + 1, usize::MAX))
    );
}

#[test]
fn region_bounds_agree_with_the_regions() {
    for len in 1..30usize {
        for slices in 1..(len + 3) {
            let v = numbered(len);
            let regions = split_immut_vec(&v, slices).unwrap();
            assert_eq!(regions.len(), slice_count(len, slices));
            for i in 0..regions.len() {
                let (start, end) = region_bounds(len, slices, i);
                assert_eq!(*regions[i], &v[start..end]);
                assert_eq!(task_range(len, slices, i), Some((start, end)));
            }
            assert_eq!(task_range(len, slices, regions.len()), None);
        }
    }
}

#[test]
fn holds_matrix_checks_the_product() {
    assert!(holds_matrix(12, 3, 4));
    assert!(holds_matrix(0, 0, 4));
    assert!(holds_matrix(0, 4, 0));
    assert!(!holds_matrix(11, 3, 4));
    assert!(!holds_matrix(0, usize::MAX, 2));
    assert!(!holds_matrix(usize::MAX - 1, usize::MAX, 2));
}

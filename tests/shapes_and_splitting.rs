use ndarray_threaded_window::array_shape_traits::{resolve_worker_count, ArraySplitter};
use ndarray_threaded_window::integer_conversion_traits::{
    integer_square_deviation, widened_sum, IntConv,
};
use ndarray_threaded_window::nd_array::{concat_over_dim, NdArray};
use ndarray_threaded_window::shape::{checked_total, from_slice, size_sub_shape};
use ndarray_threaded_window::window_functions::{
    func_window_max, func_window_min, get_func, get_func_description, get_func_name, WindowFunction,
    FUNCTION_COUNT,
};

#[test]
fn window_shape_from_longer_and_shorter_lists() {
    assert_eq!(from_slice(&[1, 2, 3, 4, 5], 1), vec![1]);
    assert_eq!(from_slice(&[1, 2, 3, 4, 5], 3), vec![1, 2, 3]);
    assert_eq!(from_slice(&[1, 2, 3, 4, 5], 5), vec![1, 2, 3, 4, 5]);
    assert_eq!(from_slice(&[5], 5), vec![5, 1, 1, 1, 1]);
    assert_eq!(from_slice(&[0, 3], 2), vec![1, 3]);
}

#[test]
fn reduced_shape_saturates() {
    assert_eq!(size_sub_shape(&vec![50, 5], &vec![2, 2]), vec![49, 4]);
    assert_eq!(size_sub_shape(&vec![3, 10], &vec![7, 10]), vec![0, 1]);
    assert_eq!(size_sub_shape(&vec![4], &vec![0]), vec![4]);
}

#[test]
fn element_counts() {
    assert_eq!(checked_total(&vec![2, 3, 4]), Some(24));
    assert_eq!(checked_total(&vec![usize::MAX, 2]), None);
    assert_eq!(checked_total(&vec![usize::MAX, usize::MAX, 0]), Some(0));
}

#[test]
fn worker_count_override_in_range_is_used() {
    assert_eq!(resolve_worker_count(Some(7), Some(4)), 7);
    assert_eq!(resolve_worker_count(Some(7), None), 7);
    assert_eq!(resolve_worker_count(Some(1), Some(64)), 1);
    assert_eq!(resolve_worker_count(Some(99), Some(64)), 99);
}

#[test]
fn worker_count_override_out_of_range_falls_back() {
    assert_eq!(resolve_worker_count(Some(0), Some(4)), 4);
    assert_eq!(resolve_worker_count(Some(100), Some(4)), 4);
    assert_eq!(resolve_worker_count(Some(0), None), 12);
    assert_eq!(resolve_worker_count(Some(1000), None), 12);
    assert_eq!(resolve_worker_count(None, None), 12);
    assert_eq!(resolve_worker_count(None, Some(0)), 12);
    for c in [0usize, 100, 250, usize::MAX] {
        assert_ne!(resolve_worker_count(Some(c), None), 0);
    }
}

#[test]
fn boundaries_overlap_by_window_less_one() {
    let array: NdArray<u8> = NdArray::new(vec![4000], vec![0u8; 4000]).unwrap();
    let window = vec![25usize];
    for k in 1usize..=32 {
        let splitter = ArraySplitter::new(&array, &window, k);
        let b = splitter.slice_position_vec();
        assert_eq!(b.len(), k);
        assert_eq!(b[0].0, 0);
        assert_eq!(b[k - 1].1, 4000);
        for j in 0..k {
            assert_eq!(b[j].2, 0);
            assert!(b[j].0 <= b[j].1);
        }
        for j in 0..k - 1 {
            assert_eq!(b[j].1 - b[j + 1].0, 24, "workers {} chunk {}", k, j);
        }
    }
}

#[test]
fn boundaries_round_to_nearest() {
    // span 3976 over 7 workers: 568 per worker exactly
    let array: NdArray<u8> = NdArray::new(vec![4000], vec![0u8; 4000]).unwrap();
    let splitter = ArraySplitter::new(&array, &vec![25usize], 7);
    let b = splitter.slice_position_vec();
    assert_eq!(b[1], (568, 1160, 0));
    // span 5 over 2 workers: the half rounds up
    let small: NdArray<u8> = NdArray::new(vec![6], vec![0u8; 6]).unwrap();
    let b = ArraySplitter::new(&small, &vec![2usize], 2).slice_position_vec();
    assert_eq!(b, vec![(0, 4, 0), (3, 6, 0)]);
}

#[test]
fn split_along_largest_axis_first_chunk_shape() {
    let array: NdArray<u8> = NdArray::new(vec![5, 50, 5], vec![0u8; 1250]).unwrap();
    let window = from_slice(&[2, 2, 2], 3);
    let splitter = ArraySplitter::new(&array, &window, 2);
    let b = splitter.slice_position_vec();
    let (a, e, d) = b[0];
    assert_eq!(d, 1);
    let first = array.slice_array(a, e, d);
    assert_eq!(first.shape, vec![5, 26, 5]);
    let chunks = splitter.split_array(&array);
    assert_eq!(chunks.len(), 2);
    assert_eq!(chunks[0].shape, vec![5, 26, 5]);
    assert_eq!(chunks[1].shape, vec![5, 25, 5]);
}

#[test]
fn largest_axis_first_wins_a_tie() {
    let array: NdArray<u8> = NdArray::new(vec![4, 9, 9], vec![0u8; 324]).unwrap();
    let splitter = ArraySplitter::new(&array, &vec![1usize, 1, 1], 3);
    assert_eq!(splitter.mod_dim, 1);
}

#[test]
fn slicing_keeps_other_axes() {
    let data: Vec<u16> = (0u16..24).collect();
    let array = NdArray::new(vec![2, 3, 4], data).unwrap();
    let s = array.slice_array(1, 3, 1);
    assert_eq!(s.shape, vec![2, 2, 4]);
    assert_eq!(s.data, vec![4, 5, 6, 7, 8, 9, 10, 11, 16, 17, 18, 19, 20, 21, 22, 23]);
    let t = array.slice_array(2, 2, 2);
    assert_eq!(t.shape, vec![2, 3, 0]);
    assert!(t.data.is_empty());
}

#[test]
fn concatenation_restores_the_array() {
    let data: Vec<i32> = (0i32..24).collect();
    let array = NdArray::new(vec![2, 3, 4], data.clone()).unwrap();
    let parts = vec![array.slice_array(0, 1, 2), array.slice_array(1, 1, 2), array.slice_array(1, 4, 2)];
    let joined = concat_over_dim(&parts, 2).unwrap();
    assert_eq!(joined.shape, vec![2, 3, 4]);
    assert_eq!(joined.data, data);
}

#[test]
fn concatenation_refuses_mismatched_parts() {
    let a: NdArray<u8> = NdArray::new(vec![2, 3], vec![0u8; 6]).unwrap();
    let b: NdArray<u8> = NdArray::new(vec![3, 3], vec![0u8; 9]).unwrap();
    assert!(concat_over_dim(&vec![a.slice_array(0, 2, 0), b.slice_array(0, 3, 0)], 1).is_none());
    assert!(concat_over_dim(&Vec::<NdArray<u8>>::new(), 0).is_none());
    assert!(concat_over_dim(&vec![a.slice_array(0, 2, 0)], 2).is_none());
    let joined = concat_over_dim(&vec![a.slice_array(0, 2, 0), b.slice_array(0, 3, 0)], 0).unwrap();
    assert_eq!(joined.shape, vec![5, 3]);
}

#[test]
fn restack_joins_in_order() {
    let array: NdArray<u8> = NdArray::new(vec![10], (0u8..10).collect()).unwrap();
    let splitter = ArraySplitter::new(&array, &vec![1usize], 3);
    let chunks = splitter.split_array(&array);
    let joined = splitter.restack(chunks).unwrap();
    assert_eq!(joined.data, (0u8..10).collect::<Vec<u8>>());
}

#[test]
fn array_construction_checks_shape() {
    assert!(NdArray::new(vec![2, 3], vec![0u8; 6]).is_some());
    assert!(NdArray::new(vec![2, 3], vec![0u8; 5]).is_none());
    assert!(NdArray::<u8>::new(vec![], vec![]).is_none());
    assert!(NdArray::new(vec![1, 1, 1, 1, 1, 1], vec![0u8; 1]).is_none());
    let a = NdArray::new(vec![2, 3], vec![0u8; 6]).unwrap();
    assert_eq!(a.ndim(), 2);
    assert_eq!(a.get_dimension_length(1), 3);
}

#[test]
fn window_max_and_min_match_manual() {
    let w: Vec<i32> = vec![4, -7, 19, 3, 19, -20, 0];
    assert_eq!(func_window_max(&w), *w.iter().max().unwrap());
    assert_eq!(func_window_min(&w), *w.iter().min().unwrap());
    let u: Vec<u8> = vec![200, 13, 255, 0];
    assert_eq!(func_window_max(&u), 255);
    assert_eq!(func_window_min(&u), 0);
    let empty: Vec<u16> = vec![];
    assert_eq!(func_window_max(&empty), u16::MIN);
    assert_eq!(func_window_min(&empty), u16::MAX);
}

#[test]
fn element_bounds_and_widening() {
    assert_eq!(<i8 as IntConv>::min_value(), i8::MIN);
    assert_eq!(<u32 as IntConv>::max_value(), u32::MAX);
    assert_eq!(u64::MAX.as_larger_int(), 18446744073709551615i128);
    assert_eq!(widened_sum(&[255u8; 4]), 1020);
    assert_eq!(widened_sum(&[u64::MAX, u64::MAX]), 2 * (u64::MAX as i128));
    assert_eq!(widened_sum(&[i64::MIN, -1i64]), i64::MIN as i128 - 1);
    assert_eq!(widened_sum::<u8>(&[]), 0);
}

#[test]
fn registry_lookup_and_listing() {
    assert_eq!(get_func(0), Ok(WindowFunction::WindowMax));
    assert_eq!(get_func(1), Ok(WindowFunction::WindowMin));
    assert_eq!(get_func(8), Ok(WindowFunction::FastSampleStd));
    assert!(get_func(9).is_err());
    assert_eq!(get_func_name(0), Ok("func_window_max"));
    assert_eq!(get_func_name(5), Ok("func_fast_std"));
    assert_eq!(get_func_description(1), Ok("return the minimum value of the window"));
    assert!(get_func_name(FUNCTION_COUNT).is_err());
    let mut names = Vec::new();
    let mut i = 0usize;
    while let Ok(n) = get_func_name(i) {
        names.push(n);
        i += 1;
    }
    assert_eq!(names.len(), 9);
    assert_eq!(names[2], "func_stdev_ddof_0");
    assert_eq!(names[8], "func_fast_sample_std");
}

#[test]
fn integer_mean_and_squared_deviation() {
    assert_eq!(integer_square_deviation(&[2u8, 4, 4, 4, 5, 5, 7, 9]), (5, 32));
    assert_eq!(integer_square_deviation(&[-3i16, -4]), (-3, 1));
    assert_eq!(integer_square_deviation(&[7u32]), (7, 0));
    assert_eq!(integer_square_deviation(&[0u16, 1, 1]), (0, 2));
    assert_eq!(integer_square_deviation(&[i32::MIN, i32::MAX]), (0, 2 * (1i128 << 62) - (1i128 << 32) + 1));
}

#[test]
fn registry_unknown_number_error_text() {
    assert_eq!(get_func(9), Err("No Function Found for Value"));
    assert_eq!(get_func(usize::MAX), Err("No Function Found for Value"));
    assert_eq!(get_func_name(9), Err("No Function Found for Value"));
    assert_eq!(get_func_description(9), Err("No Function Found for Value"));
    assert_eq!(get_func_description(0), Ok("return the maximum value of the window"));
    assert_eq!(
        get_func_description(2),
        Ok("apply rust ndarray::std(ddof:0) over the window (uses float64 values) then round to input dtype")
    );
    assert_eq!(
        get_func_description(6),
        Ok("run func_fast_std then double before converting back into input type")
    );
}

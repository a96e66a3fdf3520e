use ndarray_threaded_window::array_threading::{apply_over_any_window, split_apply_over_any_window};
use ndarray_threaded_window::nd_array::NdArray;
use ndarray_threaded_window::shape::from_slice;
use ndarray_threaded_window::integer_conversion_traits::IntConv;
use ndarray_threaded_window::window_functions::{func_window_max, func_window_min};

fn array_from_fn<T: Copy>(shape: &[usize], f: impl Fn(&[usize]) -> T) -> NdArray<T> {
    let n: usize = shape.iter().product();
    let mut data = Vec::with_capacity(n);
    let mut idx = vec![0usize; shape.len()];
    for _ in 0..n {
        data.push(f(&idx));
        let mut k = shape.len();
        while k > 0 {
            k -= 1;
            idx[k] += 1;
            if idx[k] < shape[k] {
                break;
            }
            idx[k] = 0;
        }
    }
    NdArray::new(shape.to_vec(), data).unwrap()
}

fn xor_array<T: Copy>(shape: &[usize], conv: impl Fn(usize) -> T) -> NdArray<T> {
    array_from_fn(shape, |idx| conv(idx.iter().fold(0usize, |a, b| a ^ b)))
}

fn check_all_worker_counts<T, F>(arr: &NdArray<T>, win: &Vec<usize>, func: &F)
where
    T: Copy + PartialEq + std::fmt::Debug,
    F: Fn(&[T]) -> T,
{
    let seq = apply_over_any_window(arr, win, func);
    for workers in [1usize, 2, 3, 5, 7, 12, 16] {
        let chunked = split_apply_over_any_window(arr, win, func, workers);
        assert_eq!(chunked.shape, seq.shape, "workers = {}", workers);
        assert_eq!(chunked.data, seq.data, "workers = {}", workers);
    }
}

const WIN_SHAPE: &[usize] = &[2, 4, 3, 2, 1];

fn check_both<T: IntConv + PartialEq + std::fmt::Debug>(arr: &NdArray<T>, win: &Vec<usize>) {
    check_all_worker_counts(arr, win, &func_window_max::<T>);
    check_all_worker_counts(arr, win, &func_window_min::<T>);
}

fn check_rank(shape: &[usize]) {
    let win = from_slice(WIN_SHAPE, shape.len());
    let a = xor_array(shape, |v| v as u8);
    check_both(&a, &win);
    let b = xor_array(shape, |v| (v * 257) as u16);
    check_both(&b, &win);
    let c = xor_array(shape, |v| (v * 65537) as u32);
    check_both(&c, &win);
    let d = xor_array(shape, |v| (v as i8).wrapping_sub(20));
    check_both(&d, &win);
    let e = xor_array(shape, |v| (v as i16) - 300);
    check_both(&e, &win);
    let f = xor_array(shape, |v| (v as i32) * -1000);
    check_both(&f, &win);
}

#[test]
fn chunked_equals_sequential_rank_1() {
    check_rank(&[24]);
}

#[test]
fn chunked_equals_sequential_rank_2() {
    check_rank(&[24, 60]);
}

#[test]
fn chunked_equals_sequential_rank_3() {
    check_rank(&[24, 20, 12]);
}

#[test]
fn chunked_equals_sequential_rank_4() {
    check_rank(&[12, 10, 6, 6]);
}

#[test]
fn chunked_equals_sequential_rank_5() {
    check_rank(&[8, 10, 6, 4, 3]);
}

#[test]
fn min_over_50_by_5_gives_49_by_4() {
    let array: NdArray<u8> = NdArray::new(vec![50, 5], vec![0u8; 250]).unwrap();
    let window = from_slice(&[2, 2], 2);
    let out = apply_over_any_window(&array, &window, &func_window_min);
    assert_eq!(out.shape, vec![49, 4]);
    assert_eq!(out.data.len(), 49 * 4);
    assert!(out.data.iter().all(|&x| x == 0));
    for workers in [1usize, 2, 4, 12, 99] {
        let chunked = split_apply_over_any_window(&array, &window, &func_window_min, workers);
        assert_eq!(chunked.shape, vec![49, 4]);
        assert_eq!(chunked.data, out.data);
    }
}

#[test]
fn max_over_pairs_of_a_ramp() {
    let array: NdArray<u8> = NdArray::new(vec![24], (0u8..24).collect()).unwrap();
    let window = from_slice(&[2], 1);
    let out = apply_over_any_window(&array, &window, &func_window_max);
    assert_eq!(out.shape, vec![23]);
    assert_eq!(out.data[0], 1);
    assert_eq!(out.data[22], 23);
    let expected: Vec<u8> = (1u8..24).collect();
    assert_eq!(out.data, expected);
}

#[test]
fn max_and_min_of_a_2d_window() {
    // 3 x 4 array, window 2 x 3
    let data: Vec<i16> = vec![5, -3, 8, 0, 7, 2, -9, 4, 1, 6, 3, -2];
    let array = NdArray::new(vec![3, 4], data).unwrap();
    let window = from_slice(&[2, 3], 2);
    let mx = apply_over_any_window(&array, &window, &func_window_max);
    let mn = apply_over_any_window(&array, &window, &func_window_min);
    assert_eq!(mx.shape, vec![2, 2]);
    assert_eq!(mx.data, vec![8, 8, 7, 6]);
    assert_eq!(mn.data, vec![-9, -9, -9, -9]);
}

#[test]
fn shape_law_on_each_axis() {
    let array: NdArray<u32> = xor_array(&[7, 5, 3], |v| v as u32);
    for w0 in 1..9usize {
        for w1 in 1..7usize {
            let window = vec![w0, w1, 2];
            let out = apply_over_any_window(&array, &window, &func_window_max);
            let expected: Vec<usize> = vec![
                7usize.saturating_sub(w0 - 1),
                5usize.saturating_sub(w1 - 1),
                2,
            ];
            assert_eq!(out.shape, expected);
            assert_eq!(out.data.len(), expected.iter().product::<usize>());
            let chunked = split_apply_over_any_window(&array, &window, &func_window_max, 3);
            assert_eq!(chunked.shape, out.shape);
            assert_eq!(chunked.data, out.data);
        }
    }
}

#[test]
fn window_larger_than_array_gives_empty_result() {
    let array: NdArray<u8> = NdArray::new(vec![3, 4], vec![1u8; 12]).unwrap();
    let window = vec![5usize, 2];
    let out = apply_over_any_window(&array, &window, &func_window_max);
    assert_eq!(out.shape, vec![0, 3]);
    assert!(out.data.is_empty());
    let chunked = split_apply_over_any_window(&array, &window, &func_window_max, 4);
    assert_eq!(chunked.shape, vec![0, 3]);
    assert!(chunked.data.is_empty());
}

#[test]
fn window_of_ones_copies_the_array() {
    let array: NdArray<i64> = xor_array(&[4, 3, 2], |v| v as i64 - 3);
    let window = from_slice(&[], 3);
    let out = apply_over_any_window(&array, &window, &func_window_min);
    assert_eq!(out.shape, array.shape);
    assert_eq!(out.data, array.data);
}

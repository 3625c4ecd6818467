use sortrs::Ascending;
use sortrs::Descending;
use sortrs::heapsort;
use sortrs::heapsort_by;
use sortrs::insertsort;
use sortrs::insertsort_by;
use sortrs::introsort;
use sortrs::introsort_by;

#[test]
fn introsort_small_scenario_ascending() {
    let mut v: Vec<i64> = vec![5, 4, 1, 3, 2];
    introsort(&mut v);
    assert_eq!(v, vec![1, 2, 3, 4, 5]);
}

#[test]
fn introsort_small_scenario_descending() {
    let mut v: Vec<i64> = vec![5, 4, 1, 3, 2];
    introsort_by(&mut v, &Descending);
    assert_eq!(v, vec![5, 4, 3, 2, 1]);
}

#[test]
fn heapsort_empty_no_panic() {
    let mut v: Vec<u64> = vec![];
    heapsort(&mut v);
    assert_eq!(v, Vec::<u64>::new());
}

#[test]
fn insertsort_single_element_unchanged() {
    let mut v = vec![0xDEADBEEFu32];
    insertsort(&mut v);
    assert_eq!(v, vec![0xDEADBEEF]);
}

#[test]
fn introsort_large_random_nondecreasing() {
    // a simple linear congruential generator gives a fixed pseudo-random
    // input of ten thousand 64-bit values
    let mut x: u64 = 0x243F6A8885A308D3;
    let mut v: Vec<u64> = Vec::with_capacity(10_000);
    for _ in 0..10_000 {
        x = x.wrapping_mul(6364136223846793005).wrapping_add(1442695040888963407);
        v.push(x);
    }
    introsort(&mut v);
    assert!(v.windows(2).all(|w| w[0] <= w[1]));
}

#[test]
fn permutation_kept_with_duplicates() {
    let input: Vec<u32> = vec![3, 1, 3, 2, 1, 3, 0, 2];
    let expected: Vec<u32> = vec![0, 1, 1, 2, 2, 3, 3, 3];

    let mut v = input.clone();
    insertsort(&mut v);
    assert_eq!(v, expected);

    let mut v = input.clone();
    heapsort(&mut v);
    assert_eq!(v, expected);

    let mut v = input;
    introsort(&mut v);
    assert_eq!(v, expected);
}

#[test]
fn descending_comparator_reverses_order() {
    let mut v: Vec<u32> = vec![2, 9, 9, 4, 7, 0];
    insertsort_by(&mut v, &Descending);
    assert_eq!(v, vec![9, 9, 7, 4, 2, 0]);
    heapsort_by(&mut v, &Ascending);
    assert_eq!(v, vec![0, 2, 4, 7, 9, 9]);
}

#[test]
fn sorting_sorted_input_is_identity() {
    let sorted_input: Vec<u64> = (0..200).map(|i| i * 3).collect();

    let mut v = sorted_input.clone();
    insertsort(&mut v);
    assert_eq!(v, sorted_input);

    let mut v = sorted_input.clone();
    heapsort(&mut v);
    assert_eq!(v, sorted_input);

    let mut v = sorted_input.clone();
    introsort(&mut v);
    assert_eq!(v, sorted_input);
}

#[test]
fn sorting_twice_matches_sorting_once() {
    let input: Vec<i32> = vec![9, -3, 7, 7, -3, 0, 12, 5];
    let mut once = input.clone();
    introsort(&mut once);
    let mut twice = once.clone();
    introsort(&mut twice);
    assert_eq!(once, twice);
}

#[test]
fn boundary_empty_and_single_all_algorithms() {
    let mut e1: Vec<i64> = vec![];
    let mut e2: Vec<i64> = vec![];
    let mut e3: Vec<i64> = vec![];
    insertsort(&mut e1);
    heapsort(&mut e2);
    introsort(&mut e3);
    assert!(e1.is_empty() && e2.is_empty() && e3.is_empty());

    let mut s1: Vec<i64> = vec![-17];
    let mut s2: Vec<i64> = vec![-17];
    let mut s3: Vec<i64> = vec![-17];
    insertsort(&mut s1);
    heapsort(&mut s2);
    introsort(&mut s3);
    assert_eq!(s1, vec![-17]);
    assert_eq!(s2, vec![-17]);
    assert_eq!(s3, vec![-17]);
}

#[test]
fn all_equal_elements_unchanged() {
    let mut v: Vec<u32> = vec![7; 100];
    introsort(&mut v);
    assert_eq!(v, vec![7; 100]);
    heapsort(&mut v);
    assert_eq!(v, vec![7; 100]);
    insertsort(&mut v);
    assert_eq!(v, vec![7; 100]);
}

#[test]
fn adversarial_sorted_input_completes() {
    // an already-sorted sequence drives median-of-three quicksort toward
    // its worst case; the depth budget must hand the work to heap sort and
    // the sort must still finish correctly
    let n: u64 = 8192;
    let sorted_input: Vec<u64> = (0..n).collect();

    let mut v = sorted_input.clone();
    introsort(&mut v);
    assert_eq!(v, sorted_input);

    let mut rev: Vec<u64> = (0..n).rev().collect();
    introsort(&mut rev);
    assert_eq!(rev, sorted_input);
}

#[test]
fn adversarial_organ_pipe_input_completes() {
    let n: u64 = 4096;
    let mut v: Vec<u64> = (0..n).chain((0..n).rev()).collect();
    introsort(&mut v);
    let mut expected: Vec<u64> = Vec::new();
    for i in 0..n {
        expected.push(i);
        expected.push(i);
    }
    assert_eq!(v, expected);
}

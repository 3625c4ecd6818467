use rand::RngExt;

use sortrs::Ascending;
use sortrs::Descending;
use sortrs::heapsort;
use sortrs::heapsort_by;
use sortrs::insertsort;
use sortrs::insertsort_by;
use sortrs::introsort;
use sortrs::introsort_by;

fn random_vec(len: usize) -> Vec<usize> {
    let mut rng = rand::rng();
    let mut v: Vec<usize> = Vec::with_capacity(len);
    for _ in 0..len {
        v.push(rng.random::<u64>() as usize);
    }
    v
}

#[test]
fn test_insertsort() {
    for len in 4usize..25 {
        for _ in 0..100 {
            let mut v = random_vec(len);
            let mut v1 = v.clone();

            insertsort(&mut v);
            assert!(v.windows(2).all(|w| w[0] <= w[1]));

            insertsort_by(&mut v1, &Ascending);
            assert!(v1.windows(2).all(|w| w[0] <= w[1]));

            insertsort_by(&mut v1, &Descending);
            assert!(v1.windows(2).all(|w| w[0] >= w[1]));
        }
    }

    // shouldn't panic on empty vector
    let mut v: Vec<usize> = vec![];
    insertsort(&mut v);

    let mut v = vec![0xDEADBEEFu32];
    insertsort(&mut v);
    assert!(v == [0xDEADBEEF]);
}

#[test]
fn test_heapsort() {
    for len in 4usize..25 {
        for _ in 0..100 {
            let mut v = random_vec(len);
            let mut v1 = v.clone();

            heapsort(&mut v);
            assert!(v.windows(2).all(|w| w[0] <= w[1]));

            heapsort_by(&mut v1, &Ascending);
            assert!(v1.windows(2).all(|w| w[0] <= w[1]));

            heapsort_by(&mut v1, &Descending);
            assert!(v1.windows(2).all(|w| w[0] >= w[1]));
        }
    }

    // shouldn't panic on empty vector
    let mut v: Vec<usize> = vec![];
    heapsort(&mut v);

    let mut v = vec![0xDEADBEEFu32];
    heapsort(&mut v);
    assert!(v == [0xDEADBEEF]);
}

#[test]
fn test_introsort() {
    for len in 4usize..25 {
        for _ in 0..100 {
            let mut v = random_vec(len);
            let mut v1 = v.clone();

            introsort(&mut v);
            assert!(v.windows(2).all(|w| w[0] <= w[1]));

            introsort_by(&mut v1, &Ascending);
            assert!(v1.windows(2).all(|w| w[0] <= w[1]));

            introsort_by(&mut v1, &Descending);
            assert!(v1.windows(2).all(|w| w[0] >= w[1]));
        }
    }

    // shouldn't panic on empty vector
    let mut v: Vec<usize> = vec![];
    introsort(&mut v);

    let mut v = vec![0xDEADBEEFu32];
    introsort(&mut v);
    assert!(v == [0xDEADBEEF]);
}

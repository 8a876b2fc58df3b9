use rust_iron::primes::{filter_class, findmaxindex, primes_in_class, row_indices, split_tasks};

#[test]
fn primes_in_residue_class() {
    assert_eq!(primes_in_class(20, 4, 1), vec![5, 13, 17, 29, 37, 41, 53, 61]);
    assert_eq!(primes_in_class(10, 2, 1), vec![3, 5, 7, 11, 13, 17, 19, 23, 29]);
    assert_eq!(primes_in_class(5, 1, 0), vec![2, 3, 5, 7, 11]);
    assert_eq!(primes_in_class(0, 3, 1), Vec::<usize>::new());
    assert_eq!(primes_in_class(10, 3, 5), Vec::<usize>::new());
}

#[test]
fn many_primes() {
    let p = primes_in_class(10000, 1, 0);
    assert_eq!(p.len(), 10000);
    assert_eq!(p[9999], 104729);
}

#[test]
fn class_filter() {
    assert_eq!(filter_class(&vec![1, 2, 3, 4, 5, 6, 7], 3, 1), vec![1, 4, 7]);
    assert_eq!(filter_class(&vec![], 3, 1), Vec::<usize>::new());
}

#[test]
fn index_of_multiple() {
    let s = [2usize, 3, 5, 7, 11, 13];
    assert_eq!(findmaxindex(&s, 1, 2), 3);
    assert_eq!(findmaxindex(&s, 0, 2), 2);
    assert_eq!(findmaxindex(&s, 2, 1), 2);
    assert_eq!(findmaxindex(&s, 2, 0), 2);
    assert_eq!(findmaxindex(&s, 0, 6), 5);
}

#[test]
fn row_of_batch_run() {
    let s = [2usize, 3, 5, 7, 11, 13];
    let r = row_indices(&s, 1, 1, 2, false);
    assert_eq!((r.minindex, r.maxindex, r.startindex), (1, 3, 3));
    // the window 3, 5 holds the primes below 2 * 3
    assert!(s[r.minindex..r.maxindex].iter().all(|p| *p < 6));
    let r = row_indices(&s, 1, 1, 2, true);
    assert_eq!((r.minindex, r.maxindex, r.startindex), (1, 3, 3));
    let r = row_indices(&s, 0, 2, 4, true);
    assert_eq!((r.minindex, r.maxindex, r.startindex), (2, 4, 4));
}

#[test]
fn tasks_of_workers() {
    assert_eq!(split_tasks(4, 100, 500), vec![(100, 200), (200, 300), (300, 400), (400, 500)]);
    assert_eq!(split_tasks(3, 10, 12), vec![(10, 10), (10, 10), (10, 12)]);
    assert_eq!(split_tasks(4, 10, 12), vec![(10, 10), (10, 10), (10, 10), (10, 12)]);
    assert_eq!(split_tasks(1, 10, 12), vec![(10, 12)]);
    assert_eq!(split_tasks(3, 0, 10), vec![(0, 3), (3, 6), (6, 10)]);
}

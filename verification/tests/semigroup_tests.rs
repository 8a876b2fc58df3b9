use rust_iron::modules::semigroup::{row_is_stable, semi, try_semi, Semi};
use rust_iron::modules::wilf::{generatewilf, WilfSet};
use rust_iron::primes::{findmaxindex, primes_in_class, split_tasks};
use rust_iron::semigroup;
use rand::distributions::{Distribution, Uniform};

#[test]
fn semi_two_generators() {
    let s: Semi = semi(&[3, 5]);
    assert_eq!(s.apery, vec![0, 10, 5]);
    assert_eq!(s.max_a, 10);
    assert_eq!(s.sum_a, 15);
    assert_eq!(s.double_avg_a, 10);
    assert_eq!(s.maxgap, 7);
    assert_eq!(s.g1, 3);
    assert_eq!(s.c, 8);
    assert_eq!(s.count_set, 4);
    assert_eq!(s.count_gap, 4);
    assert_eq!(s.gen_set, vec![3, 5]);
    assert_eq!(s.e, 2);
    assert_eq!(s.a1, 10);
}

#[test]
fn semi_three_primes() {
    let s = semi(&[7, 11, 13]);
    assert_eq!(s.apery, vec![0, 22, 37, 24, 11, 26, 13]);
    assert_eq!(s.max_a, 37);
    assert_eq!(s.sum_a, 133);
    assert_eq!(s.double_avg_a, 38);
    assert_eq!(s.c, 31);
    assert_eq!(s.count_set, 15);
    assert_eq!(s.count_gap, 16);
    assert_eq!(s.gen_set, vec![7, 11, 13]);
    assert_eq!(s.e, 3);
}

#[test]
fn semi_mcnugget() {
    let s = semi(&[6, 9, 20]);
    assert_eq!(s.apery, vec![0, 49, 20, 9, 40, 29]);
    assert_eq!(s.c, 44);
    assert_eq!(s.count_set, 22);
    assert_eq!(s.count_gap, 22);
    assert_eq!(s.gen_set, vec![6, 9, 20]);
}

#[test]
fn selmer_formula_on_examples() {
    for input in [vec![3usize, 5], vec![5, 7, 9], vec![6, 9, 20], vec![7, 11, 13]] {
        let s = semi(&input);
        assert_eq!(s.count_set + s.count_gap, s.c);
    }
}

fn same_semigroup(w: &WilfSet, s: &Semi) {
    assert_eq!(w.apery, s.apery);
    assert_eq!(w.gen_set, s.gen_set);
    assert_eq!(w.e, s.e);
    assert_eq!(w.c, s.c);
    assert_eq!(w.count_set, s.count_set);
    assert_eq!(w.max_a, s.max_a);
    assert_eq!(w.sum_a, s.sum_a);
    assert_eq!(w.count_gap, s.count_gap);
}

#[test]
fn semi_agrees_with_generatewilf() {
    for input in [vec![3usize, 5], vec![5, 7, 9], vec![6, 9, 20], vec![7, 11, 13], vec![3, 7]] {
        let w = generatewilf(&input);
        let s = semi(&input);
        same_semigroup(&w, &s);
    }
}

#[test]
fn semi_agrees_with_generatewilf_on_prime_windows() {
    let primes = primes_in_class(200, 1, 0);
    for skip in 4..30 {
        let mut end = skip;
        while primes[end] < 2 * primes[skip] {
            end += 1;
        }
        let gens = &primes[skip..end];
        if gens.len() < 2 {
            continue;
        }
        let w = generatewilf(gens);
        let s = semi(gens);
        same_semigroup(&w, &s);
    }
}

#[test]
fn first_sieve_small() {
    let s: semigroup::Semi = semigroup::semi(&[4, 6, 9]);
    assert_eq!(s.apery, vec![0, 9, 6, 15]);
    assert_eq!(s.max_a, 15);
    assert_eq!(s.sum_a, 30);
    assert_eq!(s.double_avg_a, 15);
    assert_eq!(s.maxgap, 11);
    assert_eq!(s.g1, 4);
    assert_eq!(s.c, 12);
    assert_eq!(s.count_set, 9);
    assert_eq!(s.count_gap, 6);
    assert_eq!(s.gen_set, vec![1]);
    assert_eq!(s.e, 1);
    assert_eq!(s.a1, 9);
}

#[test]
fn first_sieve_agrees_before_window_moves() {
    let s = semigroup::semi(&[4, 6, 9]);
    let w = generatewilf(&[4, 6, 9]);
    assert_eq!(s.apery, w.apery);
    assert_eq!(s.c, w.c);
}

#[test]
fn first_sieve_after_window_moves() {
    let s = semigroup::semi(&[3, 5]);
    assert_eq!(s.apery, vec![0, 13, 5]);
    assert_eq!(s.max_a, 13);
    assert_eq!(s.sum_a, 18);
    assert_eq!(s.double_avg_a, 12);
    assert_eq!(s.c, 11);
    assert_eq!(s.count_set, 8);
    assert_eq!(s.count_gap, 5);
    let s = semigroup::semi(&[6, 9, 20]);
    assert_eq!(s.apery, vec![0, 55, 20, 9, 58, 29]);
    assert_eq!(s.count_set, 41);
    assert_eq!(s.c, 53);
    assert_eq!(s.count_gap, 26);
    let s = semigroup::semi(&[10, 14, 18]);
    assert_eq!(s.apery, vec![0, 16, 7, 23, 9]);
    assert_eq!(s.count_set, 14);
    assert_eq!(s.c, 19);
}

#[test]
fn test_random() {
    let mut rng = rand::thread_rng();
    let between = Uniform::from(10..100);
    let mut res: Vec<usize> = Vec::new();
    for _ in 0..1000 {
        res.push(between.sample(&mut rng));
    }
    assert_eq!(res.len(), 1000);
}

#[test]
fn checked_sieve_entry_point() {
    assert!(try_semi(&[]).is_none());
    assert!(try_semi(&[0, 3]).is_none());
    assert!(try_semi(&[5, 3]).is_none());
    assert!(try_semi(&[3, 6]).is_none());
    // every number of 2..=2 is a member: the sieve stops too early
    assert!(try_semi(&[2, 3]).is_none());
    assert!(try_semi(&[3, 4]).is_none());
    let s = try_semi(&[3, 5]).unwrap();
    assert_eq!(s.apery, vec![0, 10, 5]);
    assert_eq!(s.gen_set, vec![3, 5]);
    let s = try_semi(&[7, 11, 13]).unwrap();
    assert_eq!(s.count_set, 15);
}

#[test]
fn first_sieve_ignores_order_and_factor() {
    let a = semigroup::semi(&[5, 7, 9]);
    let b = semigroup::semi(&[27, 15, 21, 15]);
    assert_eq!(a.apery, b.apery);
    assert_eq!(a.count_set, b.count_set);
    assert_eq!(a.c, b.c);
}

#[test]
fn stable_rows() {
    let a = semi(&[3, 5]);
    let b = semi(&[3, 5]);
    let c = semi(&[3, 7]);
    assert!(row_is_stable(&a, &b));
    assert!(!row_is_stable(&a, &c));
}

fn all_primes_rows(primes: &[usize], task: (usize, usize), factor: usize) {
    for skip in task.0..task.1 {
        let maxindex = findmaxindex(primes, skip, factor);
        let gens = &primes[skip..maxindex];
        let res: WilfSet = generatewilf(gens);
        let resf: Semi = semi(gens);
        assert_eq!(res.apery, resf.apery);
        assert_eq!(res.gen_set, resf.gen_set);
        assert_eq!(res.e, resf.e);
        assert_eq!(res.c, resf.c);
        assert_eq!(res.count_set, resf.count_set);
    }
}

fn all_primes_main(cores: usize, start: usize, stop: usize, factor: usize) {
    let tasks = split_tasks(cores, start, stop);
    let primes: Vec<usize> = primes_in_class(8000000, 1, 0);
    let primes: &[usize] = &primes;
    crossbeam::thread::scope(|s| {
        for task in &tasks {
            let t = *task;
            s.spawn(move |_| all_primes_rows(primes, t, factor));
        }
    })
    .unwrap();
}

#[test]
fn test_all_primes() {
    all_primes_main(4, 100, 500, 4);
}

#[test]
fn first_sieve_checked_entry_point() {
    assert!(semigroup::try_semi(&[]).is_none());
    assert!(semigroup::try_semi(&[0, 4]).is_none());
    // divided by their gcd the least number is 1, which leaves no Apéry table to build
    assert!(semigroup::try_semi(&[2, 4]).is_none());
    assert!(semigroup::try_semi(&[usize::MAX, 2]).is_none());
    let t = semigroup::try_semi(&[4, 6, 9]).unwrap();
    let s = semigroup::semi(&[4, 6, 9]);
    assert_eq!(t.apery, s.apery);
    assert_eq!(t.count_set, s.count_set);
    assert_eq!(t.c, s.c);
    assert_eq!(t.count_gap, s.count_gap);
}

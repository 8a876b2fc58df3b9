use rust_iron::modules::gcd_vec;
use rust_iron::modules::sample::{coprime_sample, draw_candidate, sample_attempt, sample_step};
use rust_iron::modules::wilf::generatewilf;

#[test]
fn candidates_have_the_shape() {
    let w = generatewilf(&[6, 9, 20]);
    let mut rng = rand::thread_rng();
    for _ in 0..200 {
        let v = draw_candidate(&w, &mut rng).0;
        assert_eq!(v.len(), 3);
        assert_eq!(v[0], 6);
        for x in &v[1..] {
            assert!(7 <= *x && *x < 44);
        }
    }
}

#[test]
fn candidate_without_room_is_the_multiplicity() {
    // [2, 3]: conductor 2, so g1 + 1 < c fails and nothing is drawn
    let w = generatewilf(&[2, 3]);
    assert_eq!(w.c, 2);
    let mut rng = rand::thread_rng();
    let v = draw_candidate(&w, &mut rng).0;
    assert_eq!(v, vec![2]);
    assert_eq!(sample_attempt(&w, &mut rng).0, None);
}

#[test]
fn coprime_candidates_are_kept() {
    assert_eq!(coprime_sample(vec![6, 9, 20]), Some(vec![6, 9, 20]));
    assert_eq!(coprime_sample(vec![6, 9, 21]), None);
    assert_eq!(coprime_sample(vec![5]), None);
    assert_eq!(coprime_sample(vec![1]), Some(vec![1]));
}

#[test]
fn attempts_are_coprime_when_kept() {
    let w = generatewilf(&[6, 9, 20]);
    let mut rng = rand::thread_rng();
    let mut kept = 0;
    for _ in 0..200 {
        if let Some(v) = sample_attempt(&w, &mut rng).0 {
            assert_eq!(gcd_vec(&v), 1);
            assert_eq!(v.len(), 3);
            assert_eq!(v[0], 6);
            kept += 1;
        }
    }
    assert!(kept > 0);
}

#[test]
fn better_sample_is_accepted() {
    let input = generatewilf(&[6, 9, 20]);
    let better = generatewilf(&[6, 7, 10]);
    assert_eq!((better.c, better.count_set), (16, 7));
    assert_eq!(sample_step(&input, 44, 22, &better), (true, 16, 7));
    let equal_ratio = generatewilf(&[6, 7, 8]);
    assert_eq!((equal_ratio.c, equal_ratio.count_set), (18, 9));
    assert_eq!(sample_step(&input, 44, 22, &equal_ratio), (false, 44, 22));
    let also_better = generatewilf(&[6, 13, 17]);
    assert_eq!(sample_step(&input, 44, 22, &also_better), (true, 34, 15));
    // after the first improvement the bar is higher
    assert_eq!(sample_step(&input, 16, 7, &also_better), (false, 16, 7));
}

#[test]
fn sample_with_other_shape_is_refused() {
    let input = generatewilf(&[6, 9, 20]);
    let other_g1 = generatewilf(&[5, 7, 9]);
    assert_eq!(sample_step(&input, 44, 22, &other_g1), (false, 44, 22));
    let other_e = generatewilf(&[6, 7]);
    assert_eq!(sample_step(&input, 44, 22, &other_e), (false, 44, 22));
}

#[test]
fn multiplicity_one_is_always_kept() {
    let mut w = generatewilf(&[6, 9, 20]);
    w.g1 = 1;
    let mut rng = rand::thread_rng();
    for _ in 0..50 {
        let v = sample_attempt(&w, &mut rng).0.unwrap();
        assert_eq!(v[0], 1);
        assert_eq!(v.len(), 3);
    }
    w.e = 1;
    assert_eq!(sample_attempt(&w, &mut rng).0, Some(vec![1]));
}

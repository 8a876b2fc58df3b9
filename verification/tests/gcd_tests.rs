use rust_iron::modules::{gcd, gcd_vec};

#[test]
fn gcd_small() {
    assert_eq!(gcd(12, 18), 6);
    assert_eq!(gcd(18, 12), 6);
    assert_eq!(gcd(7, 5), 1);
    assert_eq!(gcd(9, 9), 9);
    assert_eq!(gcd(1, 100), 1);
    assert_eq!(gcd(100, 75), 25);
}

#[test]
fn gcd_divides_both_and_is_greatest() {
    for m in 1usize..40 {
        for n in 1usize..40 {
            let d = gcd(m, n);
            assert_eq!(m % d, 0);
            assert_eq!(n % d, 0);
            for k in (d + 1)..=m.min(n) {
                assert!(m % k != 0 || n % k != 0);
            }
        }
    }
}

#[test]
fn gcd_of_list() {
    assert_eq!(gcd_vec(&[12, 18, 40]), 2);
    assert_eq!(gcd_vec(&[6, 9, 20]), 1);
    assert_eq!(gcd_vec(&[7]), 7);
    assert_eq!(gcd_vec(&[30, 45, 60, 90]), 15);
}

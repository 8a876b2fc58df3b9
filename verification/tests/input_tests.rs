use rust_iron::modules::input::{plan_input, sample_count};

#[test]
fn one_list() {
    let p = plan_input("6 9 20");
    assert_eq!(p.sets, vec![vec![6, 9, 20]]);
    assert!(p.sample_first);
}

#[test]
fn several_lists() {
    let p = plan_input("6 9 20; 3 5\n4 6 9");
    assert_eq!(p.sets, vec![vec![6, 9, 20], vec![3, 5], vec![4, 6, 9]]);
    assert!(p.sample_first);
    let p = plan_input("6 9 20,3 5#4 6 9\r\n5 7");
    assert_eq!(p.sets, vec![vec![6, 9, 20], vec![3, 5], vec![4, 6, 9], vec![5, 7]]);
}

#[test]
fn short_first_list_gives_no_sample() {
    let p = plan_input("1 7; 6 9 20");
    assert_eq!(p.sets, vec![vec![6, 9, 20]]);
    assert!(!p.sample_first);
}

#[test]
fn empty_pieces_are_skipped() {
    let p = plan_input("  ;;, 6 x 9 #");
    assert_eq!(p.sets, vec![vec![6, 2, 9]]);
    assert!(p.sample_first);
    let p = plan_input(";; 6 9");
    assert_eq!(p.sets, vec![vec![6, 9]]);
    assert!(p.sample_first);
}

#[test]
fn no_input() {
    let p = plan_input("");
    assert_eq!(p.sets, Vec::<Vec<usize>>::new());
    assert!(!p.sample_first);
    let p = plan_input(" \n ; ");
    assert!(p.sets.is_empty());
    assert!(!p.sample_first);
}

#[test]
fn words_that_are_not_numbers() {
    let p = plan_input("+5 07 abc -3 0 1");
    assert_eq!(p.sets, vec![vec![5, 7, 2, 2]]);
    let p = plan_input("99999999999999999999999 4");
    assert_eq!(p.sets, vec![vec![2, 4]]);
    let p = plan_input("+ 3");
    assert_eq!(p.sets, vec![vec![2, 3]]);
}

#[test]
fn unicode_white_space() {
    let p = plan_input("6\u{a0}9\t20\u{3000}");
    assert_eq!(p.sets, vec![vec![6, 9, 20]]);
    let p = plan_input("\u{2003}3\u{85}5\u{2029}");
    assert_eq!(p.sets, vec![vec![3, 5]]);
}

#[test]
fn samples_field() {
    assert_eq!(sample_count(" 12 "), 12);
    assert_eq!(sample_count(""), 1);
    assert_eq!(sample_count("x"), 1);
    assert_eq!(sample_count("+3"), 3);
    assert_eq!(sample_count("-1"), 1);
    assert_eq!(sample_count("100"), 100);
    assert_eq!(sample_count("0"), 0);
}

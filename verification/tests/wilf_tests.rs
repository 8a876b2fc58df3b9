use rust_iron::modules::wilf::{
    apery_mod, checked_total, comparison_terms, diag_mod, generatewilf, lambda_mod, lambda_stats,
    pair_sums_fit_check, quotients_mod, row_sums_mod, selmer_terms, try_generatewilf, CellKind, WilfSet,
};
use rust_iron::WilfSet as RootWilfSet;

fn set_of(bits: &[u8]) -> Vec<u8> {
    bits.to_vec()
}

#[test]
fn generatewilf_mcnugget() {
    let w = generatewilf(&[6, 9, 20]);
    assert_eq!(w.g1, 6);
    assert_eq!(w.apery, vec![0, 49, 20, 9, 40, 29]);
    assert_eq!(w.max_a, 49);
    assert_eq!(w.sum_a, 147);
    assert_eq!(w.double_avg_a, 49);
    assert_eq!(w.maxgap, 43);
    assert_eq!(w.c, 44);
    assert_eq!(w.count_set, 22);
    assert_eq!(w.count_gap, 22);
    assert_eq!(w.gen_set, vec![6, 9, 20]);
    assert_eq!(w.gen_flags, vec![6, 0, 20, 9, 0, 0]);
    assert_eq!(w.e, 3);
    assert_eq!(w.defect, 22);
    assert_eq!(w.a1, 49);
    assert_eq!(
        w.set,
        set_of(&[
            1, 0, 0, 0, 0, 0, 1, 0, 0, 1, 0, 0, 1, 0, 0, 1, 0, 0, 1, 0, 1, 1, 0, 0, 1, 0, 1, 1, 0, 1, 1, 0, 1, 1, 0,
            1, 1, 0, 1, 1, 1, 1, 1, 0, 1, 1, 1, 1, 1, 1, 1, 1, 1, 1
        ])
    );
    assert_eq!(
        w.lambda_matrix,
        vec![
            vec![0, 0, 0, 0, 0, 0],
            vec![0, 13, 10, 3, 10, 13],
            vec![0, 10, 0, 0, 10, 0],
            vec![0, 3, 0, 3, 0, 3],
            vec![0, 10, 10, 0, 10, 10],
            vec![0, 13, 0, 3, 10, 3],
        ]
    );
}

#[test]
fn generatewilf_divides_by_gcd() {
    let a = generatewilf(&[12, 18, 40]);
    let b = generatewilf(&[6, 9, 20]);
    assert_eq!(a.apery, b.apery);
    assert_eq!(a.gen_set, b.gen_set);
    assert_eq!(a.set, b.set);
    assert_eq!(a.c, b.c);
    assert_eq!(a.count_set, b.count_set);
}

#[test]
fn generatewilf_order_does_not_matter() {
    let a = generatewilf(&[20, 6, 9]);
    let b = generatewilf(&[6, 9, 20]);
    assert_eq!(a.apery, b.apery);
    assert_eq!(a.gen_set, b.gen_set);
    assert_eq!(a.set, b.set);
}

#[test]
fn generatewilf_repetitions_do_not_matter() {
    let a = generatewilf(&[6, 6, 9, 20, 9]);
    let b = generatewilf(&[6, 9, 20]);
    assert_eq!(a.apery, b.apery);
    assert_eq!(a.gen_set, b.gen_set);
    assert_eq!(a.set, b.set);
    assert_eq!(a.lambda_matrix, b.lambda_matrix);
}

#[test]
fn generatewilf_two_generators() {
    let w = generatewilf(&[3, 5]);
    assert_eq!(w.apery, vec![0, 10, 5]);
    assert_eq!(w.c, 8);
    assert_eq!(w.count_set, 4);
    assert_eq!(w.count_gap, 4);
    assert_eq!(w.gen_set, vec![3, 5]);
    assert_eq!(w.gen_flags, vec![3, 0, 5]);
    assert_eq!(w.e, 2);
    assert_eq!(w.defect, 0);
    assert_eq!(w.set, set_of(&[1, 0, 0, 1, 0, 1, 1, 0, 1, 1, 1, 1]));
    assert_eq!(w.lambda_matrix, vec![vec![0, 0, 0], vec![0, 5, 5], vec![0, 5, 0]]);
}

#[test]
fn generatewilf_drops_redundant_generator() {
    let w = generatewilf(&[4, 6, 9]);
    assert_eq!(w.apery, vec![0, 9, 6, 15]);
    assert_eq!(w.gen_flags, vec![4, 9, 6, 0]);
    assert_eq!(w.gen_set, vec![4, 6, 9]);
    assert_eq!(w.c, 12);
    assert_eq!(w.count_set, 6);
    assert_eq!(w.defect, 6);
    let w = generatewilf(&[5, 7, 9]);
    assert_eq!(w.apery, vec![0, 16, 7, 18, 9]);
    assert_eq!(w.c, 14);
    assert_eq!(w.count_set, 6);
    assert_eq!(w.count_gap, 8);
    assert_eq!(w.double_avg_a, 20);
    assert_eq!(w.defect, 4);
}

#[test]
fn generatewilf_non_minimal_input() {
    // 10 = 5 + 5 is no minimal generator
    let w = generatewilf(&[5, 7, 9, 10]);
    assert_eq!(w.gen_set, vec![5, 7, 9]);
    assert_eq!(w.e, 3);
}

#[test]
fn wilf_inequality_holds_on_examples() {
    for input in [vec![6usize, 9, 20], vec![3, 5], vec![5, 7, 9], vec![4, 6, 9], vec![3, 7]] {
        let w = generatewilf(&input);
        assert!(w.c <= w.e * w.count_set);
        assert_eq!(w.count_set + w.count_gap, w.c);
    }
}

#[test]
fn root_wilfset_is_the_module_one() {
    let w: RootWilfSet = generatewilf(&[3, 5]);
    let v: WilfSet = w;
    assert_eq!(v.g1, 3);
}

#[test]
fn grid_height_and_cells() {
    let w = generatewilf(&[6, 9, 20]);
    assert_eq!(w.height(), 9);
    assert_eq!(w.cell_kind(0, 0), CellKind::Apery);
    assert_eq!(w.cell_kind(6, 0), CellKind::Generator);
    assert_eq!(w.cell_kind(9, 3), CellKind::Generator);
    assert_eq!(w.cell_kind(20, 2), CellKind::Generator);
    assert_eq!(w.cell_kind(49, 1), CellKind::Apery);
    assert_eq!(w.cell_kind(29, 5), CellKind::Apery);
    assert_eq!(w.cell_kind(12, 0), CellKind::Full);
    assert_eq!(w.cell_kind(43, 1), CellKind::Empty);
    assert_eq!(w.cell_kind(1, 1), CellKind::Empty);
}

#[test]
fn apery_for_conductor_modulus() {
    let w = generatewilf(&[3, 5]);
    let ap = apery_mod(&w, 8);
    assert_eq!(ap, vec![0, 9, 10, 3, 12, 5, 6, 15]);
    assert_eq!(diag_mod(&w, &ap, 8), Some(vec![15, 6, 5, 12, 3, 10, 9, 0]));
    assert_eq!(row_sums_mod(&w, &ap, 8), Some(vec![0, 9, 10, 3, 12, 5, 6, 15]));
    assert_eq!(quotients_mod(&w, &ap, 8), vec![0, 1, 1, 0, 1, 0, 0, 1]);
    assert_eq!(checked_total(&ap), Some(60));
    assert_eq!(lambda_mod(&w, &ap, 8, 1, 1), 1);
    assert!(pair_sums_fit_check(&ap));
}

#[test]
fn apery_for_small_modulus() {
    let w = generatewilf(&[6, 9, 20]);
    let ap = apery_mod(&w, 7);
    assert_eq!(ap, vec![0, 15, 9, 24, 18, 12, 6]);
    assert_eq!(diag_mod(&w, &ap, 7), Some(vec![24, 9, 15, 0, 6, 12, 18]));
    assert_eq!(quotients_mod(&w, &ap, 7), vec![0, 2, 1, 3, 2, 1, 0]);
    assert_eq!(lambda_mod(&w, &ap, 7, 1, 1), 3);
    let w = generatewilf(&[4, 6, 9]);
    let ap = apery_mod(&w, 5);
    assert_eq!(ap, vec![0, 6, 12, 8, 4]);
    assert_eq!(diag_mod(&w, &ap, 5), Some(vec![12, 6, 0, 4, 8]));
    assert_eq!(lambda_mod(&w, &ap, 5, 1, 1), 0);
}

#[test]
fn apery_mod_multiplicity_is_apery_set() {
    let w = generatewilf(&[5, 7, 9]);
    assert_eq!(apery_mod(&w, 5), vec![0, 16, 7, 18, 9]);
}

#[test]
fn checked_sums_overflow() {
    assert_eq!(checked_total(&vec![usize::MAX, 1]), None);
    assert_eq!(checked_total(&vec![]), Some(0));
    assert!(!pair_sums_fit_check(&vec![usize::MAX / 2 + 1]));
    assert!(pair_sums_fit_check(&vec![usize::MAX / 2]));
}

#[test]
fn lambda_matrix_stats() {
    let w = generatewilf(&[6, 9, 20]);
    let st = lambda_stats(&w).unwrap();
    assert_eq!(st.row_sums, vec![0, 49, 20, 9, 40, 29]);
    assert_eq!(st.diag_sums, vec![49, 0, 29, 40, 9, 20]);
    assert_eq!(st.max_apery, 49);
    assert_eq!(st.min_diag, 0);
    let w = generatewilf(&[5, 7, 9]);
    let st = lambda_stats(&w).unwrap();
    assert_eq!(st.row_sums, vec![0, 16, 7, 18, 9]);
    assert_eq!(st.diag_sums, vec![20, 4, 13, 2, 11]);
    assert_eq!(st.max_apery, 18);
    assert_eq!(st.min_diag, 2);
}

#[test]
fn comparison_line() {
    assert_eq!(comparison_terms(3, 18, 2, 5), Some((18, 6, 12, 4)));
    assert_eq!(comparison_terms(3, 49, 0, 6), Some((49, 0, 49, 5)));
    assert_eq!(comparison_terms(2, 10, 0, 3), Some((0, 0, 0, 0)));
    assert_eq!(comparison_terms(1, 10, 0, 3), None);
    assert_eq!(comparison_terms(3, 1, 1, 3), None);
    assert_eq!(comparison_terms(3, usize::MAX, 0, 3), Some((usize::MAX, 0, usize::MAX, 2)));
    assert_eq!(comparison_terms(4, usize::MAX, 0, 3), None);
}

#[test]
fn selmer_check_of_the_page() {
    let w = generatewilf(&[3, 5]);
    let ap = apery_mod(&w, w.c);
    let sum = checked_total(&ap).unwrap();
    assert_eq!(sum, 60);
    assert_eq!(selmer_terms(sum, w.c, w.count_gap), Some((15, 60)));
    let w = generatewilf(&[6, 9, 20]);
    let ap = apery_mod(&w, w.c);
    let sum = checked_total(&ap).unwrap();
    assert_eq!(sum, 1914);
    assert_eq!(selmer_terms(sum, w.c, w.count_gap), Some((87, 1914)));
    // modulo the multiplicity too
    let ap = apery_mod(&w, 6);
    assert_eq!(checked_total(&ap).unwrap(), 6 * w.count_gap + 15);
    assert_eq!(selmer_terms(usize::MAX, 2, 0), None);
    assert_eq!(selmer_terms(1, usize::MAX, 0), None);
}

#[test]
fn checked_entry_point() {
    assert!(try_generatewilf(&[]).is_none());
    assert!(try_generatewilf(&[0, 3]).is_none());
    // divided by 3 the least number is 1
    assert!(try_generatewilf(&[3, 6]).is_none());
    assert!(try_generatewilf(&[usize::MAX, 2]).is_none());
    let w = try_generatewilf(&[6, 9, 20]).unwrap();
    assert_eq!(w.apery, vec![0, 49, 20, 9, 40, 29]);
    assert_eq!(w.gen_set, vec![6, 9, 20]);
    let w = try_generatewilf(&[2, 3]).unwrap();
    assert_eq!(w.apery, vec![0, 3]);
    assert_eq!(w.c, 2);
}

#[test]
fn lambda_rows_and_diagonals() {
    for input in [vec![6usize, 9, 20], vec![5, 7, 9], vec![4, 6, 9], vec![3, 5]] {
        let w = generatewilf(&input);
        let st = lambda_stats(&w).unwrap();
        assert_eq!(st.row_sums, w.apery);
        for i in 0..w.g1 {
            assert_eq!(st.diag_sums[i], w.double_avg_a - w.apery[i]);
            for j in 0..w.g1 {
                assert_eq!(w.lambda_matrix[i][j], w.lambda_matrix[j][i]);
            }
        }
    }
}

#[test]
fn table_modulo_a_member_sums_rows_and_diagonals() {
    for input in [vec![3usize, 5], vec![6, 9, 20], vec![4, 6, 9]] {
        let w = generatewilf(&input);
        for s in [w.g1, w.c, w.g1 + w.c] {
            let ap = apery_mod(&w, s);
            assert!(pair_sums_fit_check(&ap));
            let rows = row_sums_mod(&w, &ap, s).unwrap();
            let diag = diag_mod(&w, &ap, s).unwrap();
            let total = checked_total(&ap).unwrap();
            for i in 0..s {
                assert_eq!(rows[i], ap[i]);
                assert_eq!(diag[i], 2 * total / s - ap[i]);
            }
        }
    }
}

#[test]
fn table_modulo_multiplicity_is_the_apery_set() {
    for input in [vec![3usize, 5], vec![6, 9, 20], vec![4, 6, 9], vec![7, 11, 13]] {
        let w = generatewilf(&input);
        assert_eq!(apery_mod(&w, w.g1), w.apery);
    }
}

#[test]
fn sylvester_two_generators() {
    for a in 2usize..12 {
        for b in (a + 1)..30 {
            let mut x = a;
            let mut y = b;
            while y != 0 {
                let t = x % y;
                x = y;
                y = t;
            }
            if x != 1 {
                continue;
            }
            let w = generatewilf(&[a, b]);
            assert_eq!(w.g1, a);
            assert_eq!(w.max_a, (a - 1) * b);
            assert_eq!(w.c, (a - 1) * (b - 1));
            assert_eq!(w.count_gap, (a - 1) * (b - 1) / 2);
        }
    }
}

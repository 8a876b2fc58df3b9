//! Coprime generators reach every residue modulo their least element `m`, each one with a
//! member at most `(m - 1)` times the largest generator.
//!
//! The residues of members form a set closed under addition modulo `m`; its least positive
//! element divides `m` and every generator, hence their gcd 1.  The residues of members up
//! to `k` times the largest generator grow with `k` until they are closed under adding a
//! generator, and then they are the residues of all members; so after `m - 1` steps they
//! are all residues.
use vstd::prelude::*;
use vstd::arithmetic::div_mod::*;
use vstd::set_lib::*;
use crate::modules::{all_positive, divides, gcd_seq, lemma_divides_combo, lemma_gcd_seq_properties};
use crate::modules::wilf::{lemma_reduce_positive, reduce};
use crate::numsg::{
    in_sg, is_max_of, is_min_of, lemma_add_gen, lemma_add_members, lemma_member_unfold, positive_gens,
    residue_reached_below, residues_reached_below,
};

verus! {

/// Residue `r` modulo `m` is the residue of some member.
pub open spec fn member_residue(g: Seq<usize>, m: nat, r: int) -> bool {
    exists|x: nat| #[trigger] in_sg(g, x) && x % m == r
}

proof fn lemma_member_residue_add(g: Seq<usize>, m: nat, a: int, b: int)
    requires
        m > 0,
        member_residue(g, m, a),
        member_residue(g, m, b),
    ensures
        member_residue(g, m, (a + b) % (m as int)),
{
    let x = choose|x: nat| #[trigger] in_sg(g, x) && x % m == a;
    let y = choose|y: nat| #[trigger] in_sg(g, y) && y % m == b;
    lemma_add_members(g, x, y);
    lemma_add_mod_noop(x as int, y as int, m as int);
    assert(in_sg(g, x + y) && (x + y) % m == (a + b) % (m as int));
}

proof fn lemma_member_residue_multiple(g: Seq<usize>, m: nat, e: int, k: nat)
    requires
        m > 0,
        0 <= e < m,
        member_residue(g, m, e),
    ensures
        member_residue(g, m, (k * e) % (m as int)),
    decreases k,
{
    if k == 0 {
        lemma_small_mod(0, m);
        assert(in_sg(g, 0) && 0nat % m == (k * e) % (m as int));
    } else {
        let p = (k - 1) as nat;
        lemma_member_residue_multiple(g, m, e, p);
        lemma_member_residue_add(g, m, (p * e) % (m as int), e);
        lemma_small_mod(e as nat, m);
        lemma_add_mod_noop(p * e, e, m as int);
        lemma_mod_twice(p * e, m as int);
        assert(p * e + e == k * e) by (nonlinear_arith)
            requires k == p + 1;
    }
}

proof fn lemma_least_positive_residue(g: Seq<usize>, m: nat, r: int) -> (e: int)
    requires
        0 < r < m,
        member_residue(g, m, r),
    ensures
        0 < e <= r,
        member_residue(g, m, e),
        forall|u: int| 0 < u < e ==> !#[trigger] member_residue(g, m, u),
    decreases r,
{
    if exists|u: int| 0 < u < r && #[trigger] member_residue(g, m, u) {
        let u = choose|u: int| 0 < u < r && #[trigger] member_residue(g, m, u);
        lemma_least_positive_residue(g, m, u)
    } else {
        r
    }
}

/// The least positive residue of a member divides every residue `v` of a member:
/// `v + (m - v / e) e` is `v % e` modulo `m`.
proof fn lemma_least_divides(g: Seq<usize>, m: nat, e: int, v: int)
    requires
        m > 0,
        0 < e < m,
        member_residue(g, m, e),
        forall|u: int| 0 < u < e ==> !#[trigger] member_residue(g, m, u),
        0 <= v < m,
        member_residue(g, m, v),
    ensures
        v % e == 0,
{
    lemma_fundamental_div_mod(v, e);
    lemma_mod_bound(v, e);
    let q = v / e;
    let u = v % e;
    assert(0 <= q <= v) by (nonlinear_arith)
        requires v == e * q + u, 0 <= u < e, e > 0, v >= 0;
    let k = (m - q) as nat;
    lemma_member_residue_multiple(g, m, e, k);
    lemma_mod_bound(k * e, m as int);
    lemma_member_residue_add(g, m, v, (k * e) % (m as int));
    lemma_add_mod_noop(v, k * e, m as int);
    lemma_small_mod(v as nat, m);
    lemma_mod_twice(k * e, m as int);
    assert(v + k * e == u + e * m) by (nonlinear_arith)
        requires v == e * q + u, k == m - q;
    lemma_mod_multiples_vanish(e, u, m as int);
    lemma_small_mod(u as nat, m);
    assert(member_residue(g, m, u));
}

/// The least positive residue of a member divides `m`: `(m - m / e) e` is `m % e` modulo
/// `m`.
proof fn lemma_least_divides_modulus(g: Seq<usize>, m: nat, e: int)
    requires
        m > 0,
        0 < e < m,
        member_residue(g, m, e),
        forall|u: int| 0 < u < e ==> !#[trigger] member_residue(g, m, u),
    ensures
        (m as int) % e == 0,
{
    lemma_fundamental_div_mod(m as int, e);
    lemma_mod_bound(m as int, e);
    let q = (m as int) / e;
    let u = (m as int) % e;
    assert(0 <= q <= m) by (nonlinear_arith)
        requires m == e * q + u, 0 <= u < e, e > 0;
    let k = (m - q) as nat;
    lemma_member_residue_multiple(g, m, e, k);
    assert(k * e == u + (e - 1) * m) by (nonlinear_arith)
        requires m == e * q + u, k == m - q;
    lemma_mod_multiples_vanish(e - 1, u, m as int);
    lemma_small_mod(u as nat, m);
    assert(member_residue(g, m, u));
}

/// With coprime generators, every residue modulo the least generator `m` is the residue of
/// a member.
pub proof fn lemma_all_residues_members(g: Seq<usize>, m: nat)
    requires
        g.len() > 0,
        positive_gens(g),
        is_min_of(g, m),
        gcd_seq(g) == 1,
    ensures
        forall|r: int| 0 <= r < m ==> #[trigger] member_residue(g, m, r),
{
    lemma_gcd_seq_properties(g);
    if m == 1 {
        assert forall|r: int| 0 <= r < m implies #[trigger] member_residue(g, m, r) by {
            assert(in_sg(g, 0) && 0nat % m == r);
        }
    } else {
        // some generator is not a multiple of m
        let i0 = if exists|i: int| #![trigger g[i]] 0 <= i < g.len() && (g[i] as nat) % m != 0 {
            choose|i: int| #![trigger g[i]] 0 <= i < g.len() && (g[i] as nat) % m != 0
        } else {
            assert forall|i: int| 0 <= i < g.len() implies divides(m, #[trigger] g[i] as nat) by {
                assert((g[i] as nat) % m == 0);
            }
            assert(divides(m, gcd_seq(g)));
            lemma_small_mod(1, m);
            0
        };
        let r0 = ((g[i0] as nat) % m) as int;
        lemma_mod_bound(g[i0] as int, m as int);
        lemma_add_gen(g, 0, i0);
        assert(in_sg(g, g[i0] as nat));
        assert(member_residue(g, m, r0));
        let e = lemma_least_positive_residue(g, m, r0);
        lemma_least_divides_modulus(g, m, e);
        assert forall|i: int| 0 <= i < g.len() implies divides(e as nat, #[trigger] g[i] as nat) by {
            lemma_mod_bound(g[i] as int, m as int);
            lemma_add_gen(g, 0, i);
            assert(in_sg(g, g[i] as nat));
            assert(member_residue(g, m, ((g[i] as nat) % m) as int));
            lemma_least_divides(g, m, e, ((g[i] as nat) % m) as int);
            lemma_fundamental_div_mod(g[i] as int, m as int);
            lemma_fundamental_div_mod(m as int, e);
            lemma_divides_combo(e as nat, m, ((g[i] as nat) % m) as nat, ((g[i] as nat) / m) as nat);
            assert(m * ((g[i] as nat) / m) + (g[i] as nat) % m == g[i]);
        }
        assert(divides(e as nat, gcd_seq(g)));
        if e > 1 {
            lemma_small_mod(1, e as nat);
        }
        assert(e == 1);
        assert forall|r: int| 0 <= r < m implies #[trigger] member_residue(g, m, r) by {
            lemma_member_residue_multiple(g, m, 1, r as nat);
            lemma_small_mod(r as nat, m);
        }
    }
}

/// The residues of the members up to `bound`.
pub open spec fn reach(g: Seq<usize>, m: nat, bound: nat) -> Set<int> {
    Set::new(|r: int| 0 <= r < m && exists|x: nat| x <= bound && #[trigger] in_sg(g, x) && x % m == r)
}

proof fn lemma_reach_finite(g: Seq<usize>, m: nat, bound: nat)
    ensures
        reach(g, m, bound).subset_of(set_int_range(0, m as int)),
        reach(g, m, bound).finite(),
        reach(g, m, bound).len() <= m,
{
    lemma_int_range(0, m as int);
    lemma_len_subset(reach(g, m, bound), set_int_range(0, m as int));
}

/// When the residues up to `(k + 1) M` are those up to `k M`, they are the residues of all
/// members.
proof fn lemma_reach_closed(g: Seq<usize>, m: nat, mx: nat, k: nat, x: nat)
    requires
        m > 0,
        is_max_of(g, mx),
        reach(g, m, (k + 1) * mx) == reach(g, m, k * mx),
        in_sg(g, x),
    ensures
        reach(g, m, k * mx).contains((x % m) as int),
    decreases x,
{
    lemma_mod_bound(x as int, m as int);
    if x == 0 {
        assert(0 <= k * mx) by (nonlinear_arith);
        assert(in_sg(g, 0) && 0nat <= k * mx && 0nat % m == (x % m) as int);
    } else {
        lemma_member_unfold(g, x);
        let i = choose|i: int| 0 <= i < g.len() && 0 < #[trigger] g[i] <= x && in_sg(g, (x - g[i]) as nat);
        let y = (x - g[i]) as nat;
        lemma_reach_closed(g, m, mx, k, y);
        assert(reach(g, m, k * mx).contains((y % m) as int));
        let z = choose|z: nat| z <= k * mx && #[trigger] in_sg(g, z) && z % m == (y % m) as int;
        lemma_add_gen(g, z, i);
        assert(g[i] <= mx);
        assert(z + g[i] <= (k + 1) * mx) by (nonlinear_arith)
            requires z <= k * mx, g[i] <= mx;
        lemma_add_mod_noop(z as int, g[i] as int, m as int);
        lemma_add_mod_noop(y as int, g[i] as int, m as int);
        lemma_mod_twice(y as int, m as int);
        assert((z + g[i]) % (m as int) == (x % m) as int);
        assert(in_sg(g, z + g[i] as nat));
        assert(reach(g, m, (k + 1) * mx).contains((x % m) as int));
    }
}

/// After `k` steps the residues up to `k M` are all residues or at least `k + 1` of them.
proof fn lemma_reach_grows(g: Seq<usize>, m: nat, mx: nat, k: nat)
    requires
        m > 0,
        is_max_of(g, mx),
        forall|r: int| 0 <= r < m ==> #[trigger] member_residue(g, m, r),
    ensures
        reach(g, m, k * mx) == set_int_range(0, m as int) || reach(g, m, k * mx).len() >= k + 1,
    decreases k,
{
    lemma_int_range(0, m as int);
    let full = set_int_range(0, m as int);
    if k == 0 {
        let a = reach(g, m, 0);
        assert(0 * mx == 0);
        lemma_small_mod(0, m);
        assert(in_sg(g, 0) && 0nat <= 0nat && 0nat % m == 0int);
        assert(a.contains(0));
        lemma_reach_finite(g, m, 0);
        assert(Set::<int>::empty().insert(0).subset_of(a));
        lemma_len_subset(Set::<int>::empty().insert(0), a);
    } else {
        let p = (k - 1) as nat;
        lemma_reach_grows(g, m, mx, p);
        let a = reach(g, m, p * mx);
        let b = reach(g, m, k * mx);
        lemma_reach_finite(g, m, p * mx);
        lemma_reach_finite(g, m, k * mx);
        assert(p * mx <= k * mx) by (nonlinear_arith)
            requires p < k;
        assert(a.subset_of(b)) by {
            assert forall|r: int| a.contains(r) implies b.contains(r) by {
                let x = choose|x: nat| x <= p * mx && #[trigger] in_sg(g, x) && x % m == r;
                assert(x <= k * mx && in_sg(g, x) && x % m == r);
            }
        }
        if a == full {
            assert(b =~= full);
        } else if b == a {
            assert(k == p + 1);
            assert forall|r: int| full.contains(r) implies a.contains(r) by {
                assert(member_residue(g, m, r));
                let x = choose|x: nat| #[trigger] in_sg(g, x) && x % m == r;
                lemma_reach_closed(g, m, mx, p, x);
            }
            assert(a =~= full);
        } else {
            assert(exists|r: int| b.contains(r) && !a.contains(r)) by {
                if !(exists|r: int| b.contains(r) && !a.contains(r)) {
                    assert(a =~= b);
                }
            }
            let r = choose|r: int| b.contains(r) && !a.contains(r);
            a.lemma_subset_not_in_lt(b, r);
        }
    }
}

/// Coprime positive generators reach every residue modulo their least element `m` with a
/// member at most `(m - 1)` times their largest element `mx`.
pub proof fn lemma_residues_reached(g: Seq<usize>, m: nat, mx: nat)
    requires
        g.len() > 0,
        positive_gens(g),
        is_min_of(g, m),
        is_max_of(g, mx),
        gcd_seq(g) == 1,
    ensures
        residues_reached_below(g, m, ((m - 1) * mx + 1) as nat),
{
    let i = choose|i: int| 0 <= i < g.len() && g[i] == m;
    assert(m > 0);
    lemma_all_residues_members(g, m);
    let k = (m - 1) as nat;
    lemma_reach_grows(g, m, mx, k);
    lemma_reach_finite(g, m, k * mx);
    lemma_int_range(0, m as int);
    let full = set_int_range(0, m as int);
    if reach(g, m, k * mx) != full {
        lemma_subset_equality(reach(g, m, k * mx), full);
    }
    assert forall|r: nat| r < m implies #[trigger] residue_reached_below(g, m, ((m - 1) * mx + 1) as nat, r) by {
        assert(reach(g, m, k * mx).contains(r as int));
        let x = choose|x: nat| x <= k * mx && #[trigger] in_sg(g, x) && x % m == r as int;
        assert(x < ((m - 1) * mx + 1) as nat);
    }
}

/// The bound of `lemma_residues_reached` raised to any `bound` above it.
pub proof fn lemma_residues_below(g: Seq<usize>, m: nat, mx: nat, bound: nat)
    requires
        g.len() > 0,
        positive_gens(g),
        is_min_of(g, m),
        is_max_of(g, mx),
        gcd_seq(g) == 1,
        (m - 1) * mx + 1 <= bound,
    ensures
        residues_reached_below(g, m, bound),
{
    lemma_residues_reached(g, m, mx);
    assert forall|r: nat| r < m implies #[trigger] residue_reached_below(g, m, bound, r) by {
        assert(residue_reached_below(g, m, ((m - 1) * mx + 1) as nat, r));
        let x = choose|x: nat| x < ((m - 1) * mx + 1) as nat && x % m == r && #[trigger] in_sg(g, x);
        assert(x < bound && x % m == r && in_sg(g, x));
    }
}

/// Numbers divided by their gcd are coprime.
pub proof fn lemma_reduce_coprime(s: Seq<usize>)
    requires
        s.len() > 0,
        all_positive(s),
    ensures
        gcd_seq(reduce(s)) == 1,
{
    let d = gcd_seq(s);
    let g = reduce(s);
    lemma_gcd_seq_properties(s);
    lemma_reduce_positive(s);
    assert(all_positive(g)) by {
        assert forall|i: int| 0 <= i < g.len() implies #[trigger] g[i] > 0 by {
            assert(positive_gens(g));
        }
    }
    lemma_gcd_seq_properties(g);
    let e = gcd_seq(g);
    assert(divides(e, g[0] as nat));
    assert forall|i: int| 0 <= i < s.len() implies divides(d * e, #[trigger] s[i] as nat) by {
        assert(divides(d, s[i] as nat));
        assert(divides(e, g[i] as nat));
        lemma_fundamental_div_mod(s[i] as int, d as int);
        lemma_fundamental_div_mod(g[i] as int, e as int);
        let q = (s[i] as nat) / d;
        assert(g[i] == q);
        let t = (g[i] as nat) / e;
        assert(s[i] == t * (d * e)) by (nonlinear_arith)
            requires s[i] == d * q + 0, q == e * t + 0;
        assert(d * e > 0) by (nonlinear_arith) requires d > 0, e > 0;
        lemma_mod_multiples_basic(t as int, (d * e) as int);
    }
    assert(divides(d * e, d));
    assert(e == 1) by {
        if e > 1 {
            assert(d * e > d) by (nonlinear_arith) requires d > 0, e > 1;
            lemma_small_mod(d, d * e);
        }
    }
}

} // verus!

//! Semigroups of two coprime generators `a < b`: the Apéry set modulo `a` is made of the
//! multiples `k b` for `k < a`, so the conductor is `(a - 1) (b - 1)` (Sylvester).
use vstd::prelude::*;
use vstd::arithmetic::div_mod::*;
use crate::modules::{all_positive, divides, gcd_seq, lemma_divides_le, lemma_gcd_seq_properties, lemma_gcd_seq_scaled, scaled};
use crate::residues::{lemma_all_residues_members, member_residue};
use crate::modules::wilf::{lemma_generatewilf_selmer, generatewilf_ok, generatewilf_post, reduce, WilfSet};
use crate::numsg::{seq_sum, apery, apery_seq, lemma_seq_max, lemma_seq_min, positive_gens, seq_max, seq_min, in_sg, is_apery, is_min_of, lemma_add_gen_multiple, lemma_apery_is, lemma_member_unfold};

verus! {

/// The generators `a` and `b`.
pub open spec fn two(a: usize, b: usize) -> Seq<usize> {
    seq![a, b]
}

/// `i a + j b`.
pub open spec fn combo(a: nat, b: nat, i: nat, j: nat) -> nat {
    i * a + j * b
}

/// Every member of the semigroup of `a` and `b` is `i a + j b` for some `i, j >= 0`.
proof fn lemma_two_decompose(a: usize, b: usize, y: nat)
    requires
        a > 0,
        b > 0,
        in_sg(seq![a, b], y),
    ensures
        exists|i: nat, j: nat| #[trigger] combo(a as nat, b as nat, i, j) == y,
    decreases y,
{
    let g = seq![a, b];
    if y == 0 {
        assert(combo(a as nat, b as nat, 0, 0) == 0);
    } else {
        lemma_member_unfold(g, y);
        let t = choose|t: int| 0 <= t < g.len() && 0 < #[trigger] g[t] <= y && in_sg(g, (y - g[t]) as nat);
        let z = (y - g[t]) as nat;
        lemma_two_decompose(a, b, z);
        let (i, j) = choose|i: nat, j: nat| #[trigger] combo(a as nat, b as nat, i, j) == z;
        if t == 0 {
            assert(combo(a as nat, b as nat, i + 1, j) == y) by (nonlinear_arith)
                requires combo(a as nat, b as nat, i, j) == z, z == y - a, combo(a as nat, b as nat, i + 1, j) == (i + 1) * a + j * b,
                    combo(a as nat, b as nat, i, j) == i * a + j * b;
        } else {
            assert(combo(a as nat, b as nat, i, j + 1) == y) by (nonlinear_arith)
                requires combo(a as nat, b as nat, i, j) == z, z == y - b, combo(a as nat, b as nat, i, j + 1) == i * a + (j + 1) * b,
                    combo(a as nat, b as nat, i, j) == i * a + j * b;
        }
    }
}

/// Euclid: `a` coprime to `b` and dividing `d b` divides `d`.
proof fn lemma_coprime_divides(a: usize, b: usize, d: nat)
    requires
        a > 0,
        b > 0,
        gcd_seq(seq![a, b]) == 1,
        d > 0,
        d * a <= usize::MAX,
        d * b <= usize::MAX,
        divides(a as nat, d * (b as nat)),
    ensures
        divides(a as nat, d),
{
    let s = seq![a, b];
    assert(all_positive(s));
    lemma_gcd_seq_scaled(s, d);
    let t = scaled(s, d);
    lemma_gcd_seq_properties(t);
    assert(t[0] == d * a);
    assert(t[1] == d * b);
    assert(divides(a as nat, t[0] as nat)) by {
        lemma_mod_multiples_basic(d as int, a as int);
        assert(d * a == a * d) by (nonlinear_arith);
    }
    assert(divides(a as nat, gcd_seq(t)));
}

/// For `k < a` the multiple `k b` is the least member of its residue modulo `a`.
proof fn lemma_multiple_is_apery(a: usize, b: usize, k: nat)
    requires
        2 <= a < b,
        gcd_seq(seq![a, b]) == 1,
        b * b <= usize::MAX,
        k < a,
    ensures
        is_apery(seq![a, b], a as nat, (k * (b as nat)) % (a as nat), k * (b as nat)),
{
    let g = seq![a, b];
    let an = a as nat;
    let bn = b as nat;
    lemma_add_gen_multiple(g, 0, 1, k);
    assert(in_sg(g, k * bn));
    assert forall|y: nat| y < k * bn && y % an == (k * bn) % an implies !#[trigger] in_sg(g, y) by {
        if in_sg(g, y) {
            lemma_two_decompose(a, b, y);
            let (i, j) = choose|i: nat, j: nat| #[trigger] combo(an, bn, i, j) == y;
            assert(i * an + j * bn == y);
            assert(j < k) by (nonlinear_arith)
                requires i * an + j * bn == y, y < k * bn, bn > 0;
            let d = (k - j) as nat;
            lemma_fundamental_div_mod((k * bn) as int, an as int);
            lemma_fundamental_div_mod(y as int, an as int);
            let q1 = (k * bn) as int / an as int;
            let q2 = y as int / an as int;
            let q = q1 - q2 + i;
            assert(d * bn == an * q) by (nonlinear_arith)
                requires
                    k * bn == an * q1 + (k * bn) % an,
                    y == an * q2 + y % an,
                    y % an == (k * bn) % an,
                    i * an + j * bn == y,
                    d == k - j,
                    q == q1 - q2 + i;
            assert(q >= 0) by (nonlinear_arith)
                requires d * bn == an * q, an > 0, d > 0, bn > 0;
            lemma_mod_multiples_basic(q, an as int);
            assert((an * q) % (an as int) == 0) by {
                assert(an * q == q * an) by (nonlinear_arith);
            }
            assert(divides(an, d * bn));
            assert(d * an <= usize::MAX && d * bn <= usize::MAX) by (nonlinear_arith)
                requires d <= an, an < bn, bn * bn <= usize::MAX;
            lemma_coprime_divides(a, b, d);
            lemma_divides_le(an, d);
        }
    }
    assert(in_sg(g, k * bn));
}

/// Modulo `a`, the Apéry element of each residue is a multiple `k b` with `k < a`, and the
/// largest of them is `(a - 1) b`.
proof fn lemma_two_apery(a: usize, b: usize)
    requires
        2 <= a < b,
        gcd_seq(two(a, b)) == 1,
        b * b <= usize::MAX,
    ensures
        forall|r: nat| r < a ==> is_apery(two(a, b), a as nat, r, #[trigger] apery(two(a, b), a as nat, r))
            && apery(two(a, b), a as nat, r) <= (a - 1) * b
            && apery(two(a, b), a as nat, r) % (b as nat) == 0,
        seq_max(apery_seq(two(a, b), a as nat)) == (a - 1) * b,
{
    let g = two(a, b);
    let an = a as nat;
    let bn = b as nat;
    assert(positive_gens(g));
    assert(is_min_of(g, an)) by {
        assert(g[0] == a);
    }
    lemma_all_residues_members(g, an);
    assert forall|r: nat| r < a implies is_apery(g, an, r, #[trigger] apery(g, an, r)) && apery(g, an, r) <= (a - 1) * b
        && apery(g, an, r) % bn == 0 by {
        assert(member_residue(g, an, r as int));
        let x = choose|x: nat| #[trigger] in_sg(g, x) && x % an == r;
        lemma_two_decompose(a, b, x);
        let (i, j) = choose|i: nat, j: nat| #[trigger] combo(an, bn, i, j) == x;
        let k = j % an;
        lemma_fundamental_div_mod(j as int, an as int);
        let t = j / an;
        assert(x == an * (i + t * bn) + k * bn) by (nonlinear_arith)
            requires x == i * an + j * bn, j == an * t + k;
        assert((k * bn) % an == r) by {
            lemma_mod_multiples_vanish((i + t * bn) as int, (k * bn) as int, an as int);
        }
        lemma_multiple_is_apery(a, b, k);
        lemma_apery_is(g, an, r, k * bn);
        assert(k * bn <= (a - 1) * b) by (nonlinear_arith)
            requires k < an, bn > 0, an == a, bn == b;
        lemma_mod_multiples_basic(k as int, bn as int);
    }
    let k1 = (an - 1) as nat;
    let top: nat = (k1 * bn) % an;
    lemma_multiple_is_apery(a, b, k1);
    lemma_apery_is(g, an, top, k1 * bn);
    lemma_mod_bound((k1 * bn) as int, an as int);
    assert(k1 * bn <= usize::MAX) by (nonlinear_arith)
        requires k1 < an, an < bn, bn * bn <= usize::MAX;
    assert(k1 * bn == (a - 1) * b);
    let ap = apery_seq(g, an);
    lemma_seq_max(ap);
    assert(ap[top as int] == (a - 1) * b);
    let im = choose|i: int| 0 <= i < ap.len() && ap[i] == seq_max(ap);
    assert(ap[im] == apery(g, an, im as nat));
}

/// Sylvester's formula for two coprime generators `a < b`: `generatewilf` finds the
/// multiplicity `a`, the largest Apéry element `(a - 1) b` and the conductor
/// `(a - 1) (b - 1)`.
pub proof fn lemma_sylvester_conductor(a: usize, b: usize, w: WilfSet)
    requires
        2 <= a < b,
        gcd_seq(two(a, b)) == 1,
        generatewilf_ok(two(a, b)),
        generatewilf_post(two(a, b), w),
    ensures
        w.g1 == a,
        w.max_a == (a - 1) * b,
        w.c == (a - 1) * (b - 1),
{
    let g = two(a, b);
    assert(reduce(g) =~= g);
    lemma_seq_min(g);
    lemma_seq_max(g);
    assert(g[0] == a && g[1] == b);
    assert(seq_min(g) == a);
    assert(seq_max(g) == b);
    assert(b * b <= usize::MAX);
    lemma_two_apery(a, b);
    assert((a - 1) * b - a + 1 == (a - 1) * (b - 1)) by (nonlinear_arith);
}

/// `f(0) + ... + f(n - 1)`.
pub open spec fn fsum(f: spec_fn(int) -> int, n: nat) -> int
    decreases n,
{
    if n == 0 {
        0
    } else {
        fsum(f, (n - 1) as nat) + f(n - 1)
    }
}

proof fn lemma_fsum_change(f: spec_fn(int) -> int, g: spec_fn(int) -> int, n: nat, i0: int)
    requires
        forall|i: int| 0 <= i < n && i != i0 ==> #[trigger] f(i) == g(i),
    ensures
        0 <= i0 < n ==> fsum(g, n) == fsum(f, n) - f(i0) + g(i0),
        !(0 <= i0 < n) ==> fsum(g, n) == fsum(f, n),
    decreases n,
{
    if n > 0 {
        lemma_fsum_change(f, g, (n - 1) as nat, i0);
    }
}

/// `v` is a value of `f` on `0..n`.
pub open spec fn takes_value(f: spec_fn(int) -> int, n: nat, v: int) -> bool {
    exists|i: int| 0 <= i < n && #[trigger] f(i) == v
}

/// The values of a permutation of `0..n` add up to `n (n - 1) / 2`.
proof fn lemma_perm_sum(f: spec_fn(int) -> int, n: nat)
    requires
        forall|i: int| 0 <= i < n ==> 0 <= #[trigger] f(i) < n,
        forall|i: int, j: int| 0 <= i < n && 0 <= j < n && i != j ==> #[trigger] f(i) != #[trigger] f(j),
        forall|v: int| 0 <= v < n ==> #[trigger] takes_value(f, n, v),
    ensures
        2 * fsum(f, n) == n * (n - 1),
    decreases n,
{
    if n > 0 {
        let top = n - 1;
        assert(takes_value(f, n, top));
        let i0 = choose|i: int| 0 <= i < n && #[trigger] f(i) == top;
        let g = |i: int| if i == i0 { f(top) } else { f(i) };
        let m = (n - 1) as nat;
        assert forall|i: int| 0 <= i < m implies 0 <= #[trigger] g(i) < m by {
            if i == i0 {
                assert(f(top) != f(i0));
            } else {
                assert(f(i) != f(i0));
            }
        }
        assert forall|i: int, j: int| 0 <= i < m && 0 <= j < m && i != j implies #[trigger] g(i) != #[trigger] g(j) by {
            if i == i0 {
                assert(f(top) != f(j));
            } else if j == i0 {
                assert(f(i) != f(top));
            } else {
                assert(f(i) != f(j));
            }
        }
        assert forall|v: int| 0 <= v < m implies #[trigger] takes_value(g, m, v) by {
            assert(takes_value(f, n, v));
            let i = choose|i: int| 0 <= i < n && #[trigger] f(i) == v;
            if i == top {
                if i0 < m {
                    assert(g(i0) == v);
                } else {
                    assert(f(i0) == top);
                    assert(false);
                }
            } else {
                assert(i != i0);
                assert(g(i) == v);
            }
        }
        lemma_perm_sum(g, m);
        lemma_fsum_change(f, g, m, i0);
        if i0 < m {
            assert(fsum(g, m) == fsum(f, m) - f(i0) + f(top));
        } else {
            assert(fsum(g, m) == fsum(f, m));
        }
        assert(fsum(f, n) == fsum(f, m) + f(top));
        assert(2 * fsum(f, n) == n * (n - 1)) by (nonlinear_arith)
            requires
                2 * fsum(g, m) == m * (m - 1),
                fsum(f, n) == fsum(g, m) + top,
                m == n - 1,
                top == n - 1;
    } else {
        assert(n * (n - 1) == 0) by (nonlinear_arith) requires n == 0;
    }
}

/// The entries of `s` as a function of their index.
pub open spec fn entries(s: Seq<usize>) -> spec_fn(int) -> int {
    |i: int| s[i] as int
}

proof fn lemma_seq_sum_fsum(s: Seq<usize>)
    ensures
        seq_sum(s) == fsum(entries(s), s.len()),
    decreases s.len(),
{
    if s.len() > 0 {
        let t = s.drop_last();
        lemma_seq_sum_fsum(t);
        let n = (s.len() - 1) as nat;
        assert forall|i: int| 0 <= i < n && i != -1 implies #[trigger] entries(t)(i) == entries(s)(i) by {}
        lemma_fsum_change(entries(t), entries(s), n, -1);
    }
}

proof fn lemma_fsum_scale(f: spec_fn(int) -> int, h: spec_fn(int) -> int, n: nat, b: int)
    requires
        forall|i: int| 0 <= i < n ==> #[trigger] h(i) == f(i) * b,
    ensures
        fsum(h, n) == fsum(f, n) * b,
    decreases n,
{
    if n > 0 {
        lemma_fsum_scale(f, h, (n - 1) as nat, b);
        let m = (n - 1) as nat;
        assert(fsum(h, n) == fsum(f, n) * b) by (nonlinear_arith)
            requires
                fsum(h, m) == fsum(f, m) * b,
                fsum(h, n) == fsum(h, m) + h(m as int),
                fsum(f, n) == fsum(f, m) + f(m as int),
                h(m as int) == f(m as int) * b;
    }
}

/// For two coprime generators `a < b` the Apéry set modulo `a` adds up to
/// `b a (a - 1) / 2`: it is `0, b, 2 b, ..., (a - 1) b` in another order.
proof fn lemma_two_apery_sum(a: usize, b: usize)
    requires
        2 <= a < b,
        gcd_seq(two(a, b)) == 1,
        b * b <= usize::MAX,
    ensures
        2 * seq_sum(apery_seq(two(a, b), a as nat)) == b * (a * (a - 1)),
{
    let g = two(a, b);
    let an = a as nat;
    let bn = b as nat;
    let ap = apery_seq(g, an);
    lemma_two_apery(a, b);
    assert((a - 1) * b <= usize::MAX) by (nonlinear_arith)
        requires a < b, b * b <= usize::MAX;
    assert forall|r: int| 0 <= r < an implies #[trigger] ap[r] == apery(g, an, r as nat) by {
        assert(apery(g, an, r as nat) <= (a - 1) * b);
    }
    let f = |r: int| ap[r] as int / (b as int);
    assert forall|r: int| 0 <= r < an implies #[trigger] entries(ap)(r) == f(r) * b by {
        assert(ap[r] == apery(g, an, r as nat));
        assert(apery(g, an, r as nat) % bn == 0);
        let x = ap[r] as int;
        lemma_fundamental_div_mod(x, b as int);
        assert(x == f(r) * b) by (nonlinear_arith)
            requires x == b * (x / (b as int)) + x % (b as int), x % (b as int) == 0, f(r) == x / (b as int);
    }
    assert forall|r: int| 0 <= r < an implies 0 <= #[trigger] f(r) < an by {
        assert(ap[r] == apery(g, an, r as nat));
        assert(apery(g, an, r as nat) <= (a - 1) * b);
        assert(entries(ap)(r) == f(r) * b);
        let x = ap[r] as int;
        assert(f(r) < an) by (nonlinear_arith)
            requires x == f(r) * b, x <= (a - 1) * b, b > 0, an == a;
        lemma_div_pos_is_pos(x, b as int);
    }
    assert forall|i: int, j: int| 0 <= i < an && 0 <= j < an && i != j implies #[trigger] f(i) != #[trigger] f(j) by {
        assert(ap[i] == apery(g, an, i as nat));
        assert(ap[j] == apery(g, an, j as nat));
        assert(entries(ap)(i) == f(i) * b);
        assert(entries(ap)(j) == f(j) * b);
        if f(i) == f(j) {
            assert(ap[i] == ap[j]);
            assert(is_apery(g, an, i as nat, ap[i] as nat));
            assert(is_apery(g, an, j as nat, ap[j] as nat));
        }
    }
    assert forall|v: int| 0 <= v < an implies #[trigger] takes_value(f, an, v) by {
        let vn = v as nat;
        let r: nat = (vn * bn) % an;
        lemma_multiple_is_apery(a, b, vn);
        lemma_apery_is(g, an, r, vn * bn);
        assert(vn * bn <= usize::MAX) by (nonlinear_arith)
            requires vn < an, an < bn, bn * bn <= usize::MAX;
        assert(ap[r as int] == vn * bn);
        lemma_div_multiples_vanish(v, b as int);
        assert(vn * bn == b * v) by (nonlinear_arith) requires vn == v, bn == b;
        assert(f(r as int) == v);
    }
    lemma_perm_sum(f, an);
    lemma_seq_sum_fsum(ap);
    lemma_fsum_scale(f, entries(ap), an, b as int);
    assert(2 * seq_sum(ap) == b * (a * (a - 1))) by (nonlinear_arith)
        requires
            seq_sum(ap) == fsum(f, an) * b,
            2 * fsum(f, an) == an * (an - 1),
            an == a;
}

/// Sylvester's count for two coprime generators `a < b`: `generatewilf` finds
/// `(a - 1) (b - 1) / 2` gaps, exactly half of the numbers below the conductor.
pub proof fn lemma_sylvester_gaps(a: usize, b: usize, w: WilfSet)
    requires
        2 <= a < b,
        gcd_seq(two(a, b)) == 1,
        generatewilf_ok(two(a, b)),
        generatewilf_post(two(a, b), w),
    ensures
        2 * w.count_gap == (a - 1) * (b - 1),
        w.count_gap == (a - 1) * (b - 1) / 2,
{
    let g = two(a, b);
    assert(reduce(g) =~= g);
    lemma_seq_min(g);
    lemma_seq_max(g);
    assert(g[0] == a && g[1] == b);
    assert(seq_min(g) == a);
    assert(seq_max(g) == b);
    assert(b * b <= usize::MAX);
    lemma_two_apery_sum(a, b);
    lemma_generatewilf_selmer(g, w);
    let x = w.count_gap as int;
    assert(2 * x == (a - 1) * (b - 1)) by (nonlinear_arith)
        requires
            a * x + ((a - 1) * a) / 2 == w.sum_a,
            2 * w.sum_a == b * (a * (a - 1)),
            a >= 2;
}

} // verus!

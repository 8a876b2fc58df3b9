//! Counting the gaps of a numerical semigroup residue class by residue class: below the
//! Apéry element `a_r` of residue `r` modulo `m` every number congruent to `r` is a gap,
//! above it none is, so there are `(a_r - r) / m` of them, and the gaps number
//! `(sum of the Apéry set - m (m - 1) / 2) / m` (Selmer's formula).
use vstd::prelude::*;
use vstd::arithmetic::div_mod::*;
use crate::numsg::{
    apery, apery_seq, count_members, in_sg, is_apery, is_min_of, lemma_add_gen, lemma_add_members,
    lemma_count_members_le, lemma_count_run, lemma_frobenius, lemma_seq_max, seq_max, seq_sum,
};

verus! {

/// Number of gaps below `n` congruent to `r` modulo `m`.
pub open spec fn class_gaps(g: Seq<usize>, m: nat, r: nat, n: nat) -> nat
    decreases n,
{
    if n == 0 {
        0
    } else {
        class_gaps(g, m, r, (n - 1) as nat) + if ((n - 1) as nat) % m == r && !in_sg(g, (n - 1) as nat) {
            1nat
        } else {
            0nat
        }
    }
}

/// Number of gaps below `n` in the residue classes below `k` modulo `m`.
pub open spec fn class_gaps_sum(g: Seq<usize>, m: nat, n: nat, k: nat) -> nat
    decreases k,
{
    if k == 0 {
        0
    } else {
        class_gaps_sum(g, m, n, (k - 1) as nat) + class_gaps(g, m, (k - 1) as nat, n)
    }
}

/// Number of naturals below `n` congruent to `r` modulo `m`.
pub open spec fn class_size(m: nat, r: nat, n: nat) -> nat {
    if n <= r {
        0
    } else {
        ((n - 1 - r) as nat / m + 1) as nat
    }
}

proof fn lemma_class_gaps_sum_step(g: Seq<usize>, m: nat, n: nat, k: nat)
    requires
        m > 0,
    ensures
        class_gaps_sum(g, m, n + 1, k) == class_gaps_sum(g, m, n, k) + if n % m < k && !in_sg(g, n) {
            1nat
        } else {
            0nat
        },
    decreases k,
{
    if k > 0 {
        lemma_class_gaps_sum_step(g, m, n, (k - 1) as nat);
    }
}

proof fn lemma_class_gaps_sum_zero(g: Seq<usize>, m: nat, k: nat)
    ensures
        class_gaps_sum(g, m, 0, k) == 0,
    decreases k,
{
    if k > 0 {
        lemma_class_gaps_sum_zero(g, m, (k - 1) as nat);
    }
}

/// The gaps below `n`, counted class by class, are all the gaps below `n`.
proof fn lemma_regroup(g: Seq<usize>, m: nat, n: nat)
    requires
        m > 0,
    ensures
        class_gaps_sum(g, m, n, m) + count_members(g, n) == n,
    decreases n,
{
    if n > 0 {
        let p = (n - 1) as nat;
        lemma_regroup(g, m, p);
        lemma_class_gaps_sum_step(g, m, p, m);
        lemma_mod_bound(p as int, m as int);
        assert(n == p + 1);
    } else {
        lemma_class_gaps_sum_zero(g, m, m);
    }
}

/// `(x + r) % m == r` exactly when `m` divides `x`, for `r < m`.
proof fn lemma_shifted_residue(x: nat, r: nat, m: nat)
    requires
        r < m,
    ensures
        ((x + r) % m == r) <==> (x % m == 0),
{
    lemma_add_mod_noop(x as int, r as int, m as int);
    lemma_small_mod(r, m);
    lemma_mod_bound(x as int, m as int);
    let v = x % m;
    if v + r < m {
        lemma_small_mod(v + r, m);
    } else {
        lemma_fundamental_div_mod_converse((v + r) as int, m as int, 1, (v + r - m) as int);
    }
}

proof fn lemma_class_size_step(m: nat, r: nat, n: nat)
    requires
        r < m,
    ensures
        class_size(m, r, n + 1) == class_size(m, r, n) + if n % m == r { 1nat } else { 0nat },
{
    if n < r {
        lemma_small_mod(n, m);
    } else if n == r {
        lemma_small_mod(r, m);
        lemma_small_mod(0, m);
    } else {
        let t = (n - 1 - r) as nat;
        lemma_fundamental_div_mod(t as int, m as int);
        lemma_mod_bound(t as int, m as int);
        let q = t / m;
        let u = t % m;
        lemma_shifted_residue(t + 1, r, m);
        assert(n == t + 1 + r);
        if u + 1 < m {
            assert(t + 1 == q * m + (u + 1)) by (nonlinear_arith)
                requires t == m * q + u;
            lemma_fundamental_div_mod_converse((t + 1) as int, m as int, q as int, (u + 1) as int);
        } else {
            assert(t + 1 == (q + 1) * m + 0) by (nonlinear_arith)
                requires t == m * q + u, u + 1 == m;
            lemma_fundamental_div_mod_converse((t + 1) as int, m as int, (q + 1) as int, 0);
        }
    }
}

/// Below the Apéry element of its class, every number of the class is a gap.
proof fn lemma_class_below_apery(g: Seq<usize>, m: nat, r: nat, a: nat, n: nat)
    requires
        r < m,
        is_apery(g, m, r, a),
        n <= a,
    ensures
        class_gaps(g, m, r, n) == class_size(m, r, n),
    decreases n,
{
    if n > 0 {
        let p = (n - 1) as nat;
        lemma_class_below_apery(g, m, r, a, p);
        lemma_class_size_step(m, r, p);
        if p % m == r {
            assert(!in_sg(g, p));
        }
    }
}

/// A number congruent to `r` and at least the Apéry element of `r` modulo a member `m` is
/// a member: it is that element plus a multiple of `m`.
proof fn lemma_above_apery_member(g: Seq<usize>, m: nat, r: nat, a: nat, x: nat)
    requires
        m > 0,
        in_sg(g, m),
        is_apery(g, m, r, a),
        x % m == r,
        x >= a,
    ensures
        in_sg(g, x),
    decreases x - a,
{
    if x > a {
        lemma_fundamental_div_mod(x as int, m as int);
        lemma_fundamental_div_mod(a as int, m as int);
        let t = x / m - a / m;
        assert(x == a + t * m) by (nonlinear_arith)
            requires x == m * (x / m) + x % m, a == m * (a / m) + a % m, x % m == a % m, t == x / m - a / m;
        assert(t >= 1) by (nonlinear_arith)
            requires x == a + t * m, x > a, m > 0;
        assert(x >= m + a) by (nonlinear_arith)
            requires x == a + t * m, t >= 1, m > 0;
        let y = (x - m) as nat;
        assert(y == a + (t - 1) * m) by (nonlinear_arith)
            requires x == a + t * m, y == x - m;
        assert(y >= a) by (nonlinear_arith)
            requires y == a + (t - 1) * m, t >= 1, m > 0;
        lemma_mod_multiples_vanish((t - 1) as int, a as int, m as int);
        assert(y % m == r);
        lemma_above_apery_member(g, m, r, a, y);
        lemma_add_members(g, y, m);
    }
}

/// From the Apéry element of its class on, no number of the class is a gap.
proof fn lemma_class_above_apery(g: Seq<usize>, m: nat, r: nat, a: nat, n: nat)
    requires
        m > 0,
        in_sg(g, m),
        r < m,
        is_apery(g, m, r, a),
        n >= a,
    ensures
        class_gaps(g, m, r, n) == class_gaps(g, m, r, a),
    decreases n - a,
{
    if n > a {
        let p = (n - 1) as nat;
        lemma_class_above_apery(g, m, r, a, p);
        if p % m == r {
            lemma_above_apery_member(g, m, r, a, p);
        }
    }
}

/// The gaps of class `r` number `(a_r - r) / m`, and `m` divides `a_r - r`.
proof fn lemma_class_gaps_total(g: Seq<usize>, m: nat, r: nat, a: nat, n: nat)
    requires
        m > 0,
        in_sg(g, m),
        r < m,
        is_apery(g, m, r, a),
        n >= a,
    ensures
        a >= r,
        class_gaps(g, m, r, n) == (a - r) as nat / m,
        m * ((a - r) as nat / m) == a - r,
{
    lemma_class_above_apery(g, m, r, a, n);
    lemma_class_below_apery(g, m, r, a, a);
    lemma_fundamental_div_mod(a as int, m as int);
    let q = a / m;
    assert(a == m * q + r);
    assert(a >= r) by (nonlinear_arith)
        requires a == m * q + r, m > 0, q >= 0;
    assert((a - r) as nat == q * m) by (nonlinear_arith)
        requires a == m * q + r;
    lemma_div_by_multiple(q as int, m as int);
    let d = (a - r) as nat;
    assert(d / m == q);
    if a > r {
        assert(q >= 1) by (nonlinear_arith)
            requires a == m * q + r, a > r, m > 0;
        let e = a - 1 - r;
        assert(e == (q - 1) * m + (m - 1)) by (nonlinear_arith)
            requires a == m * q + r, q >= 1, e == a - 1 - r;
        lemma_fundamental_div_mod_converse(e, m as int, (q - 1) as int, (m - 1) as int);
    }
    assert(m * (d / m) == d) by (nonlinear_arith)
        requires d == q * m, d / m == q;
}

proof fn lemma_sum_take_step(s: Seq<usize>, j: int)
    requires
        0 <= j < s.len(),
    ensures
        seq_sum(s.take(j + 1)) == seq_sum(s.take(j)) + s[j],
{
    assert(s.take(j + 1).drop_last() =~= s.take(j));
}

/// Twice `m` times the gaps of the classes below `k` is twice the sum of their Apéry
/// elements `ap` less `k (k - 1)`.
proof fn lemma_class_sum_closed(g: Seq<usize>, m: nat, ap: Seq<usize>, n: nat, k: nat)
    requires
        m > 0,
        in_sg(g, m),
        ap.len() == m,
        k <= m,
        forall|r: int| 0 <= r < m ==> is_apery(g, m, r as nat, #[trigger] ap[r] as nat) && ap[r] <= n,
    ensures
        2 * m * class_gaps_sum(g, m, n, k) + k * (k - 1) == 2 * seq_sum(ap.take(k as int)),
    decreases k,
{
    if k == 0 {
        assert(ap.take(0) =~= Seq::<usize>::empty());
        assert(seq_sum(ap.take(0)) == 0);
        assert(class_gaps_sum(g, m, n, k) == 0);
        assert(k * (k - 1) == 0);
    } else {
        let p = (k - 1) as nat;
        lemma_class_sum_closed(g, m, ap, n, p);
        let a = ap[p as int] as nat;
        lemma_class_gaps_total(g, m, p, a, n);
        lemma_sum_take_step(ap, p as int);
        let x = class_gaps_sum(g, m, n, p);
        let y = class_gaps(g, m, p, n);
        let total = class_gaps_sum(g, m, n, k);
        let t1 = seq_sum(ap.take(k as int));
        let t0 = seq_sum(ap.take(p as int));
        assert(2 * m * total + k * (k - 1) == 2 * t1) by (nonlinear_arith)
            requires
                total == x + y,
                m * y == a - p,
                2 * m * x + p * (p - 1) == 2 * t0,
                t1 == t0 + a,
                k == p + 1;
    }
}

/// Selmer's formula modulo any member `s`: when every number from `c` on is a member and
/// `ap` is the Apéry set modulo `s`, `s` times the number of gaps plus `s (s - 1) / 2` is
/// the sum of `ap`.
pub proof fn lemma_selmer_modulus(g: Seq<usize>, s: nat, ap: Seq<usize>, c: nat)
    requires
        s > 0,
        in_sg(g, s),
        ap.len() == s,
        forall|r: int| 0 <= r < s ==> is_apery(g, s, r as nat, #[trigger] ap[r] as nat),
        forall|x: nat| x >= c ==> #[trigger] in_sg(g, x),
    ensures
        count_members(g, c) <= c,
        s * (c - count_members(g, c)) + (s * (s - 1)) / 2 == seq_sum(ap),
{
    lemma_seq_max(ap);
    let top = c + seq_max(ap) + 1;
    assert forall|r: int| 0 <= r < s implies is_apery(g, s, r as nat, #[trigger] ap[r] as nat) && ap[r] <= top by {}
    lemma_class_sum_closed(g, s, ap, top, s);
    assert(ap.take(s as int) =~= ap);
    lemma_regroup(g, s, top);
    assert forall|x: nat| c <= x < c + (top - c) implies #[trigger] in_sg(g, x) by {}
    lemma_count_run(g, c, (top - c) as nat);
    lemma_count_members_le(g, c);
    let gaps = c - count_members(g, c);
    assert(class_gaps_sum(g, s, top, s) == gaps);
    // s (s - 1) is even
    assert(((s - 1) * s) % 2 == 0) by {
        lemma_fundamental_div_mod(s as int, 2);
        lemma_mod_bound(s as int, 2);
        let h = s / 2;
        if s % 2 == 0 {
            assert((s - 1) * s == ((s - 1) * h) * 2) by (nonlinear_arith) requires s == 2 * h;
            lemma_mod_multiples_basic(((s - 1) * h) as int, 2);
        } else {
            assert((s - 1) * s == (h * s) * 2) by (nonlinear_arith) requires s == 2 * h + 1;
            lemma_mod_multiples_basic((h * s) as int, 2);
        }
    }
    lemma_fundamental_div_mod(((s - 1) * s) as int, 2);
    assert(s * gaps + (s * (s - 1)) / 2 == seq_sum(ap)) by (nonlinear_arith)
        requires
            2 * s * gaps + s * (s - 1) == 2 * seq_sum(ap),
            (s - 1) * s == 2 * (((s - 1) * s) / 2) + ((s - 1) * s) % 2,
            ((s - 1) * s) % 2 == 0;
}

/// Selmer's formula: below the conductor `c = max a_r - m + 1` there are
/// `(sum of the Apéry set - (m - 1) m / 2) / m` gaps, and `m` times that number is the sum
/// less `(m - 1) m / 2` exactly.
pub proof fn lemma_selmer(g: Seq<usize>, m: nat)
    requires
        is_min_of(g, m),
        m >= 2,
        forall|r: nat| r < m ==> is_apery(g, m, r, #[trigger] apery(g, m, r)) && apery(g, m, r) <= usize::MAX,
    ensures
        ({
            let ap = apery_seq(g, m);
            let c = (seq_max(ap) - m + 1) as nat;
            &&& count_members(g, c) <= c
            &&& c - count_members(g, c) == (seq_sum(ap) - ((m - 1) * m) / 2) / (m as int)
            &&& m * (c - count_members(g, c)) == seq_sum(ap) - ((m - 1) * m) / 2
        }),
{
    let ap = apery_seq(g, m);
    lemma_frobenius(g, m);
    let c = (seq_max(ap) - m + 1) as nat;
    let i = choose|i: int| 0 <= i < g.len() && g[i] == m;
    lemma_add_gen(g, 0, i);
    assert(in_sg(g, m));
    assert forall|r: int| 0 <= r < m implies is_apery(g, m, r as nat, #[trigger] ap[r] as nat) by {
        assert(ap[r] == apery(g, m, r as nat));
    }
    lemma_selmer_modulus(g, m, ap, c);
    let gaps = c - count_members(g, c);
    assert((m * (m - 1)) == ((m - 1) * m)) by (nonlinear_arith);
    lemma_div_by_multiple(gaps as int, m as int);
    assert((seq_sum(ap) - ((m - 1) * m) / 2) / (m as int) == gaps) by (nonlinear_arith)
        requires m * gaps == seq_sum(ap) - ((m - 1) * m) / 2, (gaps * m) / (m as int) == gaps;
}

} // verus!

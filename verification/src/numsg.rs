//! The numerical semigroup generated by a sequence of positive integers, and
//! the notions that the library computes about it.
use vstd::prelude::*;
use vstd::arithmetic::div_mod::*;
use vstd::arithmetic::mul::*;
use crate::modules::{divides, lemma_divides_combo};

verus! {

/// `x` is a sum of elements of `g`, repetitions allowed (0 is the empty sum).
pub open spec fn in_sg(g: Seq<usize>, x: nat) -> bool
    decreases x, g.len() + 1,
{
    x == 0 || step_in(g, x, g.len())
}

/// One of the first `j` elements `k` of `g` has `0 < k <= x` and `x - k` in the semigroup.
pub open spec fn step_in(g: Seq<usize>, x: nat, j: nat) -> bool
    decreases x, j,
{
    if j == 0 || j > g.len() {
        false
    } else {
        (0 < g[j - 1] <= x && in_sg(g, (x - g[j - 1]) as nat)) || step_in(g, x, (j - 1) as nat)
    }
}

/// Every element of `g` is positive.
pub open spec fn positive_gens(g: Seq<usize>) -> bool {
    forall|i: int| 0 <= i < g.len() ==> #[trigger] g[i] > 0
}

/// `m` is the least element of `g`.
pub open spec fn is_min_of(g: Seq<usize>, m: nat) -> bool {
    (exists|i: int| 0 <= i < g.len() && g[i] == m) && forall|i: int| 0 <= i < g.len() ==> m <= #[trigger] g[i]
}

/// `x` is the largest element of `g`.
pub open spec fn is_max_of(g: Seq<usize>, x: nat) -> bool {
    (exists|i: int| 0 <= i < g.len() && g[i] == x) && forall|i: int| 0 <= i < g.len() ==> #[trigger] g[i] <= x
}

/// `step_in` holds exactly when one of the first `j` elements is a positive `k <= x` with
/// `x - k` in the semigroup.
pub proof fn lemma_step_in(g: Seq<usize>, x: nat, j: nat)
    requires
        j <= g.len(),
    ensures
        step_in(g, x, j) <==> exists|i: int|
            0 <= i < j && 0 < #[trigger] g[i] <= x && in_sg(g, (x - g[i]) as nat),
    decreases j,
{
    if j > 0 {
        lemma_step_in(g, x, (j - 1) as nat);
        if step_in(g, x, j) && !step_in(g, x, (j - 1) as nat) {
            let i = j - 1;
            assert(0 < g[i as int] <= x && in_sg(g, (x - g[i as int]) as nat));
        }
    }
}

/// A positive `x` is in the semigroup iff some generator `k <= x` has `x - k` in it.
pub proof fn lemma_member_unfold(g: Seq<usize>, x: nat)
    requires
        x > 0,
    ensures
        in_sg(g, x) <==> exists|i: int|
            0 <= i < g.len() && 0 < #[trigger] g[i] <= x && in_sg(g, (x - g[i]) as nat),
{
    lemma_step_in(g, x, g.len());
}

/// Adding a generator to a member gives a member.
pub proof fn lemma_add_gen(g: Seq<usize>, x: nat, i: int)
    requires
        0 <= i < g.len(),
        g[i] > 0,
        in_sg(g, x),
    ensures
        in_sg(g, x + g[i] as nat),
{
    lemma_member_unfold(g, x + g[i] as nat);
    assert((x + g[i] as nat - g[i]) as nat == x);
}

/// The semigroup is closed under addition.
pub proof fn lemma_add_members(g: Seq<usize>, x: nat, y: nat)
    requires
        in_sg(g, x),
        in_sg(g, y),
    ensures
        in_sg(g, x + y),
    decreases y,
{
    if y > 0 {
        lemma_member_unfold(g, y);
        let i = choose|i: int| 0 <= i < g.len() && 0 < #[trigger] g[i] <= y && in_sg(g, (y - g[i]) as nat);
        lemma_add_members(g, x, (y - g[i]) as nat);
        lemma_add_gen(g, (x + y - g[i]) as nat, i);
        assert((x + y - g[i]) + g[i] == x + y);
    }
}

/// Adding a multiple of a generator to a member gives a member.
pub proof fn lemma_add_gen_multiple(g: Seq<usize>, x: nat, i: int, t: nat)
    requires
        0 <= i < g.len(),
        g[i] > 0,
        in_sg(g, x),
    ensures
        in_sg(g, x + t * (g[i] as nat)),
    decreases t,
{
    if t > 0 {
        lemma_add_gen_multiple(g, x, i, (t - 1) as nat);
        let t1 = (t - 1) as nat;
        lemma_add_gen(g, x + t1 * (g[i] as nat), i);
        assert(x + t1 * (g[i] as nat) + g[i] as nat == x + t * (g[i] as nat)) by (nonlinear_arith)
            requires t1 == t - 1;
    } else {
        assert(t * (g[i] as nat) == 0) by (nonlinear_arith) requires t == 0;
    }
}

/// No number strictly between 0 and the least generator is a member.
pub proof fn lemma_below_min(g: Seq<usize>, m: nat, x: nat)
    requires
        is_min_of(g, m),
        0 < x < m,
    ensures
        !in_sg(g, x),
{
    lemma_member_unfold(g, x);
}

/// `a` is the least member congruent to `r` modulo `m`.
pub open spec fn is_apery(g: Seq<usize>, m: nat, r: nat, a: nat) -> bool {
    &&& in_sg(g, a)
    &&& a % m == r
    &&& forall|y: nat| y < a && y % m == r ==> !#[trigger] in_sg(g, y)
}

/// The Apéry element of residue `r` modulo `m` (the least member congruent to `r`).
pub open spec fn apery(g: Seq<usize>, m: nat, r: nat) -> nat {
    choose|a: nat| is_apery(g, m, r, a)
}

/// The Apéry set modulo `m`, indexed by residue.
pub open spec fn apery_seq(g: Seq<usize>, m: nat) -> Seq<usize> {
    Seq::new(m, |r: int| apery(g, m, r as nat) as usize)
}

/// Residue `r` modulo `m` has a member below `bound`.
pub open spec fn residue_reached_below(g: Seq<usize>, m: nat, bound: nat, r: nat) -> bool {
    exists|x: nat| x < bound && x % m == r && #[trigger] in_sg(g, x)
}

/// Every residue modulo `m` has a member below `bound`.
pub open spec fn residues_reached_below(g: Seq<usize>, m: nat, bound: nat) -> bool {
    forall|r: nat| r < m ==> #[trigger] residue_reached_below(g, m, bound, r)
}

pub proof fn lemma_apery_unique(g: Seq<usize>, m: nat, r: nat, a: nat, b: nat)
    requires
        is_apery(g, m, r, a),
        is_apery(g, m, r, b),
    ensures
        a == b,
{
    if a < b {
        assert(!in_sg(g, a));
    }
    if b < a {
        assert(!in_sg(g, b));
    }
}

/// The chosen Apéry element is the one that exists.
pub proof fn lemma_apery_is(g: Seq<usize>, m: nat, r: nat, a: nat)
    requires
        is_apery(g, m, r, a),
    ensures
        apery(g, m, r) == a,
{
    lemma_apery_unique(g, m, r, a, apery(g, m, r));
}

/// With `m` among the generators, a number is a member exactly when it is at least the
/// Apéry element of its residue.
pub proof fn lemma_member_iff_above_apery(g: Seq<usize>, m: nat, x: nat, a: nat)
    requires
        is_min_of(g, m),
        m > 0,
        is_apery(g, m, x % m, a),
    ensures
        in_sg(g, x) <==> x >= a,
{
    if x >= a {
        let i = choose|i: int| 0 <= i < g.len() && g[i] == m;
        lemma_fundamental_div_mod(x as int, m as int);
        lemma_fundamental_div_mod(a as int, m as int);
        let t = (x / m - a / m) as int;
        assert(x == a + t * m) by (nonlinear_arith)
            requires x == m * (x / m) + x % m, a == m * (a / m) + a % m, x % m == a % m, t == x / m - a / m;
        assert(t >= 0) by (nonlinear_arith)
            requires x == a + t * m, x >= a, m > 0;
        lemma_add_gen_multiple(g, a, i, t as nat);
    }
}

/// Residue 0 has Apéry element 0.
pub proof fn lemma_apery_zero(g: Seq<usize>, m: nat)
    requires
        m > 0,
    ensures
        is_apery(g, m, 0, 0),
{
    lemma_small_mod(0, m);
}

/// Largest element (0 for the empty sequence).
pub open spec fn seq_max(s: Seq<usize>) -> nat
    decreases s.len(),
{
    if s.len() == 0 {
        0
    } else {
        let t = seq_max(s.drop_last());
        if s.last() as nat > t {
            s.last() as nat
        } else {
            t
        }
    }
}

/// Least element of a non-empty sequence.
pub open spec fn seq_min(s: Seq<usize>) -> nat
    decreases s.len(),
{
    if s.len() <= 1 {
        if s.len() == 1 {
            s[0] as nat
        } else {
            0
        }
    } else {
        let t = seq_min(s.drop_last());
        if (s.last() as nat) < t {
            s.last() as nat
        } else {
            t
        }
    }
}

/// Sum of the elements.
pub open spec fn seq_sum(s: Seq<usize>) -> nat
    decreases s.len(),
{
    if s.len() == 0 {
        0
    } else {
        seq_sum(s.drop_last()) + s.last() as nat
    }
}

/// Number of members of the semigroup below `n`.
pub open spec fn count_members(g: Seq<usize>, n: nat) -> nat
    decreases n,
{
    if n == 0 {
        0
    } else {
        count_members(g, (n - 1) as nat) + if in_sg(g, (n - 1) as nat) {
            1nat
        } else {
            0nat
        }
    }
}

pub proof fn lemma_seq_max(s: Seq<usize>)
    requires
        s.len() > 0,
    ensures
        is_max_of(s, seq_max(s)),
    decreases s.len(),
{
    if s.len() > 1 {
        let t = s.drop_last();
        lemma_seq_max(t);
        let k = choose|k: int| 0 <= k < t.len() && t[k] == seq_max(t);
        assert(s[k] == t[k]);
        assert forall|i: int| 0 <= i < s.len() implies #[trigger] s[i] <= seq_max(s) by {
            if i < s.len() - 1 {
                assert(s[i] == t[i]);
            }
        }
        if s.last() as nat > seq_max(t) {
            assert(s[s.len() - 1] == seq_max(s));
        }
    } else {
        assert(s.drop_last().len() == 0);
        assert(seq_max(s.drop_last()) == 0);
        assert(s[0] == seq_max(s));
    }
}

pub proof fn lemma_seq_min(s: Seq<usize>)
    requires
        s.len() > 0,
    ensures
        is_min_of(s, seq_min(s)),
    decreases s.len(),
{
    if s.len() > 1 {
        let t = s.drop_last();
        lemma_seq_min(t);
        let k = choose|k: int| 0 <= k < t.len() && t[k] == seq_min(t);
        assert(s[k] == t[k]);
        assert forall|i: int| 0 <= i < s.len() implies seq_min(s) <= #[trigger] s[i] by {
            if i < s.len() - 1 {
                assert(s[i] == t[i]);
            }
        }
        if (s.last() as nat) < seq_min(t) {
            assert(s[s.len() - 1] == seq_min(s));
        }
    } else {
        assert(s[0] == seq_min(s));
    }
}

/// A member congruent to `r` gives the Apéry element of `r`.
pub proof fn lemma_least_exists(g: Seq<usize>, m: nat, r: nat, x: nat)
    requires
        m > 0,
        in_sg(g, x),
        x % m == r,
    ensures
        is_apery(g, m, r, apery(g, m, r)),
        apery(g, m, r) <= x,
    decreases x,
{
    if exists|y: nat| y < x && y % m == r && #[trigger] in_sg(g, y) {
        let y = choose|y: nat| y < x && y % m == r && #[trigger] in_sg(g, y);
        lemma_least_exists(g, m, r, y);
    } else {
        assert(is_apery(g, m, r, x));
        lemma_apery_is(g, m, r, x);
    }
}

/// When every residue has a member below `bound`, every residue has its Apéry element,
/// below `bound`.
pub proof fn lemma_all_apery(g: Seq<usize>, m: nat, bound: nat)
    requires
        m > 0,
        residues_reached_below(g, m, bound),
    ensures
        forall|r: nat| r < m ==> is_apery(g, m, r, #[trigger] apery(g, m, r)) && apery(g, m, r) < bound,
{
    assert forall|r: nat| r < m implies is_apery(g, m, r, #[trigger] apery(g, m, r)) && apery(g, m, r) < bound by {
        assert(residue_reached_below(g, m, bound, r));
        let x = choose|x: nat| x < bound && x % m == r && #[trigger] in_sg(g, x);
        lemma_least_exists(g, m, r, x);
    }
}

/// Every Apéry element of a non-zero residue exceeds the least generator `m >= 2`.
pub proof fn lemma_apery_above_min(g: Seq<usize>, m: nat, r: nat, a: nat)
    requires
        is_min_of(g, m),
        m >= 2,
        0 < r < m,
        is_apery(g, m, r, a),
    ensures
        a > m,
{
    if a < m {
        if a > 0 {
            lemma_below_min(g, m, a);
        } else {
            lemma_small_mod(0, m);
        }
    }
    if a == m {
        lemma_mod_self_0(m as int);
    }
}

/// The largest Apéry element, minus `m`, is the largest non-member (the Frobenius number);
/// everything above it is a member.
pub proof fn lemma_frobenius(g: Seq<usize>, m: nat)
    requires
        is_min_of(g, m),
        m >= 2,
        forall|r: nat| r < m ==> is_apery(g, m, r, #[trigger] apery(g, m, r)) && apery(g, m, r) <= usize::MAX,
    ensures
        seq_max(apery_seq(g, m)) > m,
        !in_sg(g, (seq_max(apery_seq(g, m)) - m) as nat),
        forall|x: nat| x > seq_max(apery_seq(g, m)) - m ==> #[trigger] in_sg(g, x),
{
    let ap = apery_seq(g, m);
    let ma = seq_max(ap);
    lemma_seq_max(ap);
    let k = choose|k: int| 0 <= k < ap.len() && ap[k] == ma;
    assert(ap[k] == apery(g, m, k as nat));
    assert(ap[1] == apery(g, m, 1));
    lemma_apery_above_min(g, m, 1, apery(g, m, 1));
    assert(ma > m);
    assert(is_apery(g, m, k as nat, ma));
    assert(((ma - m) as nat) % m == k) by {
        lemma_mod_sub_multiples_vanish(ma as int, m as int);
    }
    assert(!in_sg(g, (ma - m) as nat));
    assert forall|x: nat| x > ma - m implies #[trigger] in_sg(g, x) by {
        let r = x % m;
        lemma_mod_bound(x as int, m as int);
        assert(ap[r as int] == apery(g, m, r));
        let a = apery(g, m, r);
        if x < a {
            lemma_fundamental_div_mod(x as int, m as int);
            lemma_fundamental_div_mod(a as int, m as int);
            assert(a >= x + m) by (nonlinear_arith)
                requires x == m * (x / m) + r, a == m * (a / m) + r, x < a, m > 0;
            assert(a <= ma);
        }
        lemma_member_iff_above_apery(g, m, x, a);
    }
}

/// `m` consecutive members starting at `s`, with `m` a generator, make every number from
/// `s` on a member.
pub proof fn lemma_run_closure(g: Seq<usize>, m: nat, s: nat, x: nat)
    requires
        is_min_of(g, m),
        m > 0,
        forall|y: nat| s <= y < s + m ==> #[trigger] in_sg(g, y),
        x >= s,
    ensures
        in_sg(g, x),
    decreases x - s,
{
    if x >= s + m {
        lemma_run_closure(g, m, s, (x - m) as nat);
        let i = choose|i: int| 0 <= i < g.len() && g[i] == m;
        lemma_add_gen(g, (x - m) as nat, i);
    }
}

/// `x` is a minimal generator: a positive member that is not the sum of two positive
/// members.
pub open spec fn is_min_gen(g: Seq<usize>, x: nat) -> bool {
    &&& x > 0
    &&& in_sg(g, x)
    &&& forall|y: nat| 0 < y < x && #[trigger] in_sg(g, y) ==> !in_sg(g, (x - y) as nat)
}

/// Every multiple of a generator `m` is a member.
pub proof fn lemma_multiple_member(g: Seq<usize>, m: nat, y: nat)
    requires
        is_min_of(g, m),
        m > 0,
        y % m == 0,
    ensures
        in_sg(g, y),
{
    lemma_apery_zero(g, m);
    lemma_member_iff_above_apery(g, m, y, 0);
}

/// A positive member congruent to 0 is at least `m`.
pub proof fn lemma_positive_member_ge_min(g: Seq<usize>, m: nat, y: nat)
    requires
        is_min_of(g, m),
        y > 0,
        in_sg(g, y),
    ensures
        y >= m,
{
    if y < m {
        lemma_below_min(g, m, y);
    }
}

/// Only 0 is a member below the least generator.
pub proof fn lemma_count_below_min(g: Seq<usize>, m: nat, n: nat)
    requires
        is_min_of(g, m),
        1 <= n <= m,
    ensures
        count_members(g, n) == 1,
    decreases n,
{
    if n > 1 {
        lemma_count_below_min(g, m, (n - 1) as nat);
        lemma_below_min(g, m, (n - 1) as nat);
    } else {
        assert(count_members(g, 0) == 0);
    }
}

/// A stretch of `k` members adds `k` to the count.
pub proof fn lemma_count_run(g: Seq<usize>, a: nat, k: nat)
    requires
        forall|x: nat| a <= x < a + k ==> #[trigger] in_sg(g, x),
    ensures
        count_members(g, a + k) == count_members(g, a) + k,
    decreases k,
{
    if k > 0 {
        lemma_count_run(g, a, (k - 1) as nat);
        assert(in_sg(g, (a + k - 1) as nat));
    }
}

pub proof fn lemma_count_members_le(g: Seq<usize>, n: nat)
    ensures
        count_members(g, n) <= n,
    decreases n,
{
    if n > 0 {
        lemma_count_members_le(g, (n - 1) as nat);
    }
}

/// 0 is a member, so a count from 1 on is positive.
pub proof fn lemma_count_members_pos(g: Seq<usize>, n: nat)
    requires
        n >= 1,
    ensures
        count_members(g, n) >= 1,
    decreases n,
{
    if n > 1 {
        lemma_count_members_pos(g, (n - 1) as nat);
    }
}

/// A common divisor of all generators divides every member.
pub proof fn lemma_members_divisible(g: Seq<usize>, d: nat, x: nat)
    requires
        forall|i: int| 0 <= i < g.len() ==> divides(d, #[trigger] g[i] as nat),
        d > 0,
        in_sg(g, x),
    ensures
        divides(d, x),
    decreases x,
{
    if x == 0 {
        lemma_small_mod(0, d);
    } else {
        lemma_member_unfold(g, x);
        let q = choose|q: int| 0 <= q < g.len() && 0 < #[trigger] g[q] <= x && in_sg(g, (x - g[q]) as nat);
        lemma_members_divisible(g, d, (x - g[q]) as nat);
        lemma_divides_combo(d, g[q] as nat, (x - g[q]) as nat, 1);
    }
}

/// Every element of `a` occurs in `b`.
pub open spec fn elements_in(a: Seq<usize>, b: Seq<usize>) -> bool {
    forall|i: int| 0 <= i < a.len() ==> #[trigger] b.contains(a[i])
}

/// `a` and `b` hold the same elements, order and repetitions aside.
pub open spec fn same_elements(a: Seq<usize>, b: Seq<usize>) -> bool {
    elements_in(a, b) && elements_in(b, a)
}

/// Membership depends on the elements of the generator sequence only.
pub proof fn lemma_in_sg_same_elements(a: Seq<usize>, b: Seq<usize>, x: nat)
    requires
        same_elements(a, b),
    ensures
        in_sg(a, x) == in_sg(b, x),
    decreases x,
{
    if x > 0 {
        lemma_member_unfold(a, x);
        lemma_member_unfold(b, x);
        if in_sg(a, x) {
            let i = choose|i: int| 0 <= i < a.len() && 0 < #[trigger] a[i] <= x && in_sg(a, (x - a[i]) as nat);
            assert(b.contains(a[i]));
            let j = choose|j: int| 0 <= j < b.len() && b[j] == a[i];
            lemma_in_sg_same_elements(a, b, (x - a[i]) as nat);
            assert(0 <= j < b.len() && 0 < b[j] <= x && in_sg(b, (x - b[j]) as nat));
        }
        if in_sg(b, x) {
            let j = choose|j: int| 0 <= j < b.len() && 0 < #[trigger] b[j] <= x && in_sg(b, (x - b[j]) as nat);
            assert(a.contains(b[j]));
            let i = choose|i: int| 0 <= i < a.len() && a[i] == b[j];
            lemma_in_sg_same_elements(a, b, (x - b[j]) as nat);
            assert(0 <= i < a.len() && 0 < a[i] <= x && in_sg(a, (x - a[i]) as nat));
        }
    }
}

} // verus!

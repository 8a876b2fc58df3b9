use vstd::prelude::*;
use vstd::arithmetic::div_mod::*;
use vstd::arithmetic::mul::*;
use crate::numsg::same_elements;

pub mod semigroup;
pub mod wilf;
pub mod input;
pub mod sample;

verus! {

/// Greatest common divisor by Euclid's recursion.
pub open spec fn spec_gcd(a: nat, b: nat) -> nat
    decreases b,
{
    if b == 0 {
        a
    } else {
        spec_gcd(b, a % b)
    }
}

/// `d` divides `x`.
pub open spec fn divides(d: nat, x: nat) -> bool {
    d > 0 && x % d == 0
}

/// Adding a multiple of a multiple of `d` keeps divisibility by `d` unchanged.
pub proof fn lemma_divides_combo(d: nat, x: nat, y: nat, k: nat)
    requires
        divides(d, x),
    ensures
        divides(d, y) <==> divides(d, x * k + y),
{
    lemma_mul_mod_noop_left(x as int, k as int, d as int);
    assert((0int * k) % (d as int) == 0) by { lemma_small_mod(0, d); }
    lemma_add_mod_noop((x * k) as int, y as int, d as int);
    lemma_mod_twice(y as int, d as int);
    lemma_mod_self_0(d as int);
    lemma_small_mod(0, d);
}

/// The gcd of two numbers, not both zero, is positive, divides both, and is
/// divided by every common divisor.
pub proof fn lemma_gcd_properties(a: nat, b: nat)
    requires
        a > 0 || b > 0,
    ensures
        divides(spec_gcd(a, b), a),
        divides(spec_gcd(a, b), b),
        forall|d: nat| divides(d, a) && divides(d, b) ==> #[trigger] divides(d, spec_gcd(a, b)),
    decreases b,
{
    if b == 0 {
        lemma_mod_self_0(a as int);
        lemma_small_mod(0, a);
    } else {
        let r = a % b;
        let q = a / b;
        lemma_gcd_properties(b, r);
        let g = spec_gcd(b, r);
        lemma_fundamental_div_mod(a as int, b as int);
        assert(a == b * q + r) by (nonlinear_arith)
            requires a as int == b as int * (a as int / b as int) + a as int % b as int,
                q == a / b, r == a % b, b > 0;
        lemma_divides_combo(g, b, r, q);
        assert forall|d: nat| divides(d, a) && divides(d, b) implies #[trigger] divides(d, g) by {
            lemma_divides_combo(d, b, r, q);
        }
    }
}

/// One step of the loop in `gcd` keeps the gcd of the pair.
proof fn lemma_gcd_step(m: nat, n: nat)
    requires
        m > 0,
        n > 0,
    ensures
        m < n ==> spec_gcd(m, n % m) == spec_gcd(n, m),
        m >= n ==> spec_gcd(n, m % n) == spec_gcd(n, m),
{
    if m >= n {
        if m > n {
            lemma_small_mod(n, m);
            assert(spec_gcd(n, m) == spec_gcd(m, n % m));
            assert(spec_gcd(m, n) == spec_gcd(n, m % n));
        } else {
            assert(m % n == 0) by { lemma_mod_self_0(n as int); }
            assert(n % m == 0) by { lemma_mod_self_0(m as int); }
        }
    }
}

/// Greatest common divisor of `m` and `n`, both non-zero.
pub fn gcd(m: usize, n: usize) -> (r: usize)
    requires
        m != 0,
        n != 0,
    ensures
        r == spec_gcd(n as nat, m as nat),
{
    let ghost g = spec_gcd(n as nat, m as nat);
    let mut m = m;
    let mut n = n;
    while m > 0
        invariant
            n > 0,
            spec_gcd(n as nat, m as nat) == g,
        decreases m + n,
    {
        proof { lemma_gcd_step(m as nat, n as nat); }
        if m < n {
            let t = m;
            m = n;
            n = t;
        }
        m = m % n;
    }
    n
}

/// Greatest common divisor of all elements, folded from the left.
pub open spec fn gcd_seq(s: Seq<usize>) -> nat
    decreases s.len(),
{
    if s.len() == 0 {
        0
    } else if s.len() == 1 {
        s[0] as nat
    } else {
        spec_gcd(s.last() as nat, gcd_seq(s.drop_last()))
    }
}

/// All elements are non-zero.
pub open spec fn all_positive(s: Seq<usize>) -> bool {
    forall|i: int| 0 <= i < s.len() ==> #[trigger] s[i] > 0
}

/// The gcd of a non-empty sequence of positive numbers divides each of them
/// and is divided by each of their common divisors.
pub proof fn lemma_gcd_seq_properties(s: Seq<usize>)
    requires
        s.len() > 0,
        all_positive(s),
    ensures
        forall|i: int| 0 <= i < s.len() ==> divides(gcd_seq(s), #[trigger] s[i] as nat),
        forall|d: nat|
            (forall|i: int| 0 <= i < s.len() ==> divides(d, #[trigger] s[i] as nat)) ==> #[trigger] divides(
                d,
                gcd_seq(s),
            ),
    decreases s.len(),
{
    if s.len() == 1 {
        lemma_mod_self_0(s[0] as int);
    } else {
        let t = s.drop_last();
        assert(all_positive(t)) by {
            assert forall|i: int| 0 <= i < t.len() implies #[trigger] t[i] > 0 by {
                assert(t[i] == s[i]);
            }
        }
        lemma_gcd_seq_properties(t);
        let gt = gcd_seq(t);
        assert(divides(gt, t[0] as nat));
        lemma_gcd_properties(s.last() as nat, gt);
        let g = gcd_seq(s);
        assert forall|i: int| 0 <= i < s.len() implies divides(g, #[trigger] s[i] as nat) by {
            if i < s.len() - 1 {
                assert(s[i] == t[i]);
                assert(divides(g, gt));
                lemma_divides_trans(g, gt, s[i] as nat);
            }
        }
        assert forall|d: nat|
            (forall|i: int| 0 <= i < s.len() ==> divides(d, #[trigger] s[i] as nat)) implies #[trigger] divides(
            d,
            g,
        ) by {
            assert forall|i: int| 0 <= i < t.len() implies divides(d, #[trigger] t[i] as nat) by {
                assert(s[i] == t[i]);
            }
            assert(divides(d, s[s.len() - 1] as nat));
        }
    }
}

/// Divisibility is transitive.
pub proof fn lemma_divides_trans(a: nat, b: nat, c: nat)
    requires
        divides(a, b),
        divides(b, c),
    ensures
        divides(a, c),
{
    lemma_fundamental_div_mod(c as int, b as int);
    let k = c / b;
    assert(c == b * k) by (nonlinear_arith)
        requires c as int == b as int * (c as int / b as int) + c as int % b as int, c % b == 0, k == c / b;
    lemma_mul_mod_noop_left(b as int, k as int, a as int);
    lemma_small_mod(0, a);
}

/// Greatest common divisor of all the numbers, none of them zero where there are two or
/// more; a single number is its own result.
pub fn gcd_vec(numbers: &[usize]) -> (d: usize)
    requires
        numbers@.len() > 0,
        numbers@.len() == 1 || all_positive(numbers@),
    ensures
        d == gcd_seq(numbers@),
{
    let mut d = numbers[0];
    let mut j: usize = 1;
    assert(numbers@.take(1).drop_last() =~= Seq::<usize>::empty());
    while j < numbers.len()
        invariant
            1 <= j <= numbers@.len(),
            numbers@.len() == 1 || all_positive(numbers@),
            d == gcd_seq(numbers@.take(j as int)),
            numbers@.len() > 1 ==> d > 0,
        decreases numbers@.len() - j,
    {
        assert(numbers@.take(j + 1).drop_last() =~= numbers@.take(j as int));
        proof {
            assert(all_positive(numbers@.take(j as int))) by {
                assert forall|i: int| 0 <= i < j implies #[trigger] numbers@.take(j as int)[i] > 0 by {
                    assert(numbers@[i] > 0);
                }
            }
            lemma_gcd_seq_properties(numbers@.take(j as int));
        }
        d = gcd(d, numbers[j]);
        proof {
            lemma_gcd_properties(numbers@[j as int] as nat, gcd_seq(numbers@.take(j as int)));
        }
        j = j + 1;
    }
    assert(numbers@.take(numbers@.len() as int) =~= numbers@);
    d
}

/// A divisor of a positive number is at most that number.
pub proof fn lemma_divides_le(a: nat, b: nat)
    requires
        divides(a, b),
        b > 0,
    ensures
        a <= b,
{
    lemma_fundamental_div_mod(b as int, a as int);
    let q = b / a;
    assert(b == a * q) by (nonlinear_arith)
        requires b == a * (b / a) + b % a, b % a == 0, q == b / a;
    assert(a <= b) by (nonlinear_arith)
        requires b == a * q, b > 0, a > 0, q >= 0;
}

/// Two sequences with the same positive elements have the same gcd.
pub proof fn lemma_gcd_seq_same_elements(a: Seq<usize>, b: Seq<usize>)
    requires
        a.len() > 0,
        b.len() > 0,
        all_positive(a),
        all_positive(b),
        same_elements(a, b),
    ensures
        gcd_seq(a) == gcd_seq(b),
{
    lemma_gcd_seq_properties(a);
    lemma_gcd_seq_properties(b);
    let da = gcd_seq(a);
    let db = gcd_seq(b);
    assert forall|i: int| 0 <= i < b.len() implies divides(da, #[trigger] b[i] as nat) by {
        assert(a.contains(b[i]));
        let j = choose|j: int| 0 <= j < a.len() && a[j] == b[i];
        assert(divides(da, a[j] as nat));
    }
    assert forall|i: int| 0 <= i < a.len() implies divides(db, #[trigger] a[i] as nat) by {
        assert(b.contains(a[i]));
        let j = choose|j: int| 0 <= j < b.len() && b[j] == a[i];
        assert(divides(db, b[j] as nat));
    }
    assert(divides(da, db));
    assert(divides(db, da));
    assert(divides(da, a[0] as nat));
    assert(divides(db, b[0] as nat));
    lemma_divides_le(da, db);
    lemma_divides_le(db, da);
}

/// Each element of `s` multiplied by `k`.
pub open spec fn scaled(s: Seq<usize>, k: nat) -> Seq<usize> {
    s.map_values(|x: usize| (k * x) as usize)
}

/// Multiplying every number by `k` multiplies their gcd by `k`.
pub proof fn lemma_gcd_seq_scaled(s: Seq<usize>, k: nat)
    requires
        s.len() > 0,
        all_positive(s),
        k > 0,
        forall|i: int| 0 <= i < s.len() ==> k * #[trigger] s[i] <= usize::MAX,
    ensures
        all_positive(scaled(s, k)),
        gcd_seq(scaled(s, k)) == k * gcd_seq(s),
{
    let t = scaled(s, k);
    assert forall|i: int| 0 <= i < t.len() implies #[trigger] t[i] > 0 && t[i] == k * s[i] by {
        assert(k * s[i] > 0) by (nonlinear_arith) requires k > 0, s[i] > 0;
    }
    lemma_gcd_seq_properties(s);
    lemma_gcd_seq_properties(t);
    let d = gcd_seq(s);
    let e = gcd_seq(t);
    assert(d > 0 && e > 0) by {
        assert(divides(d, s[0] as nat));
        assert(divides(e, t[0] as nat));
    }
    // k d divides every k s_i, so k d divides e
    assert forall|i: int| 0 <= i < t.len() implies divides(k * d, #[trigger] t[i] as nat) by {
        assert(divides(d, s[i] as nat));
        lemma_fundamental_div_mod(s[i] as int, d as int);
        let q = (s[i] as nat) / d;
        assert(t[i] == q * (k * d)) by (nonlinear_arith)
            requires t[i] == k * s[i], s[i] == d * q + 0;
        assert(k * d > 0) by (nonlinear_arith) requires k > 0, d > 0;
        lemma_mod_multiples_basic(q as int, (k * d) as int);
    }
    assert(divides(k * d, e));
    // k divides every k s_i, so e = k e' with e' dividing every s_i
    assert forall|i: int| 0 <= i < t.len() implies divides(k, #[trigger] t[i] as nat) by {
        lemma_mod_multiples_basic(s[i] as int, k as int);
        assert(t[i] == s[i] * k) by (nonlinear_arith) requires t[i] == k * s[i];
    }
    assert(divides(k, e));
    lemma_fundamental_div_mod(e as int, k as int);
    let e1 = e / k;
    assert(e == k * e1) by (nonlinear_arith)
        requires e == k * (e / k) + e % k, e % k == 0, e1 == e / k;
    assert(e1 > 0) by (nonlinear_arith) requires e == k * e1, e > 0, k > 0;
    assert forall|i: int| 0 <= i < s.len() implies divides(e1, #[trigger] s[i] as nat) by {
        assert(divides(e, t[i] as nat));
        lemma_fundamental_div_mod(t[i] as int, e as int);
        let q = (t[i] as nat) / e;
        assert(k * s[i] == k * (e1 * q)) by (nonlinear_arith)
            requires t[i] == k * s[i], t[i] == e * q + 0, e == k * e1;
        lemma_mul_equality_converse(k as int, s[i] as int, (e1 * q) as int);
        assert(s[i] == q * e1) by (nonlinear_arith) requires s[i] == e1 * q;
        lemma_mod_multiples_basic(q as int, e1 as int);
    }
    assert(divides(e1, d));
    lemma_divides_le(e1, d);
    lemma_divides_le(k * d, e);
    assert(e == k * d) by (nonlinear_arith)
        requires e == k * e1, e1 <= d, k * d <= e, k > 0;
}

} // verus!

//! The numerical semigroup of a sorted list of generators computed by a sieve over a
//! sliding window of twice the largest generator.
use vstd::prelude::*;
use vstd::arithmetic::div_mod::*;
use crate::numsg::{
    apery, apery_seq, count_members, in_sg, is_apery, is_min_gen, is_min_of, lemma_add_gen, lemma_add_members,
    lemma_all_apery, lemma_apery_is, lemma_apery_zero, lemma_below_min, lemma_count_below_min, lemma_count_run,
    lemma_frobenius, lemma_member_iff_above_apery, lemma_member_unfold, lemma_multiple_member, lemma_run_closure,
    lemma_seq_max, lemma_seq_min, positive_gens, residues_reached_below, seq_max, seq_min, seq_sum,
    is_max_of,
};
use crate::gaps::lemma_selmer;
use crate::residues::lemma_residues_below;
use crate::modules::{all_positive, gcd_seq, gcd_vec, lemma_gcd_seq_properties};
use crate::modules::wilf::{checked_total, sieve, generatewilf_ok, generatewilf_post, reduce, WilfSet, apery_found, lemma_min_gen_is_flag, lists_min_gens, strictly_increasing};

verus! {

/// A numerical semigroup: Apéry set modulo the multiplicity `g1`, conductor `c`,
/// `count_set` members below it, `count_gap` gaps, minimal generators `gen_set`.
pub struct Semi {
    pub apery: Vec<usize>,
    pub max_a: usize,
    pub sum_a: usize,
    pub double_avg_a: usize,
    pub maxgap: usize,
    pub g1: usize,
    pub count_set: usize,
    pub count_gap: usize,
    pub gen_set: Vec<usize>,
    pub e: usize,
    pub c: usize,
    pub a1: usize,
}

/// What `Semi::new` needs of its Apéry list `ap` and multiplicity `g1`: at least two
/// entries, those after the first above `g1 > 0`, the sum at least `(g1 - 1) g1 / 2`, and
/// the sums in range.
pub open spec fn semi_new_ok(ap: Seq<usize>, g1: usize) -> bool {
    &&& ap.len() >= 2
    &&& g1 > 0
    &&& forall|r: int| 1 <= r < ap.len() ==> #[trigger] ap[r] > g1
    &&& 2 * seq_sum(ap) <= usize::MAX
    &&& (g1 - 1) * g1 <= usize::MAX
    &&& seq_sum(ap) >= ((g1 - 1) * g1) / 2
}

/// An Apéry set modulo `g1 >= 2`: `g1` entries, those after the first above `g1`, with the
/// sums in range.
pub open spec fn apery_table_ok(ap: Seq<usize>, g1: usize) -> bool {
    &&& ap.len() == g1
    &&& g1 >= 2
    &&& forall|r: int| 1 <= r < g1 ==> #[trigger] ap[r] > g1
    &&& 2 * seq_sum(ap) <= usize::MAX
    &&& (g1 - 1) * g1 <= usize::MAX
}

/// The number of gaps by Selmer's formula: `(sum of the Apéry set - g1 (g1 - 1) / 2) / g1`.
pub open spec fn selmer_gaps(ap: Seq<usize>, g1: usize) -> int {
    (seq_sum(ap) - ((g1 - 1) * g1) / 2) / (g1 as int)
}

/// The fields of `s` are those derived from `count_set`, `ap`, `g1` and `gens`.
pub open spec fn semi_fields(s: Semi, count_set: usize, ap: Seq<usize>, g1: usize, gens: Seq<usize>) -> bool {
    &&& s.apery@ == ap
    &&& s.max_a == seq_max(ap)
    &&& s.sum_a == seq_sum(ap)
    &&& s.double_avg_a == 2 * seq_sum(ap) / ap.len()
    &&& s.g1 == g1
    &&& s.maxgap == seq_max(ap) - g1
    &&& s.c == seq_max(ap) - g1 + 1
    &&& s.count_set == count_set
    &&& s.count_gap == selmer_gaps(ap, g1)
    &&& s.gen_set@ == gens
    &&& s.e == gens.len()
    &&& s.a1 == ap[1]
}

proof fn lemma_sum_max_step(s: Seq<usize>, j: int)
    requires
        0 <= j < s.len(),
    ensures
        seq_sum(s.take(j + 1)) == seq_sum(s.take(j)) + s[j],
        seq_max(s.take(j + 1)) == if s[j] as nat > seq_max(s.take(j)) { s[j] as nat } else { seq_max(s.take(j)) },
{
    assert(s.take(j + 1).drop_last() =~= s.take(j));
}

proof fn lemma_sum_prefix_le(s: Seq<usize>, j: int)
    requires
        0 <= j <= s.len(),
    ensures
        seq_sum(s.take(j)) <= seq_sum(s),
    decreases s.len() - j,
{
    if j < s.len() {
        lemma_sum_prefix_le(s, j + 1);
        lemma_sum_max_step(s, j);
    } else {
        assert(s.take(j) =~= s);
    }
}

/// The sum of entries from index 1 on, each above `g1`, exceeds `(g1 - 1) * g1`.
proof fn lemma_sum_lower(s: Seq<usize>, g1: usize, j: int)
    requires
        s.len() == g1,
        1 <= j <= g1,
        forall|r: int| 1 <= r < g1 ==> #[trigger] s[r] > g1,
    ensures
        seq_sum(s.take(j)) >= (j - 1) * g1,
    decreases j,
{
    if j > 1 {
        lemma_sum_lower(s, g1, j - 1);
        lemma_sum_max_step(s, j - 1);
        assert((j - 1) * g1 == (j - 2) * g1 + g1) by (nonlinear_arith);
    } else {
        assert((j - 1) * g1 == 0) by (nonlinear_arith) requires j == 1;
    }
}

/// An Apéry set modulo `g1` meets what `Semi::new` needs.
pub(crate) proof fn lemma_apery_table_new_ok(ap: Seq<usize>, g1: usize)
    requires
        apery_table_ok(ap, g1),
    ensures
        semi_new_ok(ap, g1),
{
    lemma_sum_lower(ap, g1, g1 as int);
    assert(ap.take(g1 as int) =~= ap);
    assert((g1 - 1) * g1 >= ((g1 - 1) * g1) / 2) by (nonlinear_arith) requires g1 >= 2;
}

impl Semi {
    fn new(count_set: usize, apery: Vec<usize>, g1: usize, gens: Vec<usize>) -> (s: Self)
        requires
            semi_new_ok(apery@, g1),
        ensures
            semi_fields(s, count_set, apery@, g1, gens@),
    {
        let ghost ap = apery@;
        let mut max_a: usize = 0;
        let mut sum: usize = 0;
        let mut k: usize = 0;
        assert(ap.take(0) =~= Seq::<usize>::empty());
        while k < apery.len()
            invariant
                ap == apery@,
                0 <= k <= ap.len(),
                max_a == seq_max(ap.take(k as int)),
                sum == seq_sum(ap.take(k as int)),
                2 * seq_sum(ap) <= usize::MAX,
            decreases ap.len() - k,
        {
            proof {
                lemma_sum_max_step(ap, k as int);
                lemma_sum_prefix_le(ap, k + 1);
            }
            if apery[k] > max_a {
                max_a = apery[k];
            }
            sum = sum + apery[k];
            k = k + 1;
        }
        assert(ap.take(ap.len() as int) =~= ap);
        let a1: usize = apery[1];
        proof {
            lemma_seq_max(ap);
            assert(ap[1] > g1);
        }
        let count_gap = (sum - ((g1 - 1) * g1) / 2) / g1;
        let double_avg_a = 2 * sum / apery.len();
        let e = gens.len();
        Semi {
            apery: apery,
            max_a: max_a,
            sum_a: sum,
            double_avg_a: double_avg_a,
            g1: g1,
            maxgap: max_a - g1,
            count_set: count_set,
            count_gap: count_gap,
            e: e,
            gen_set: gens,
            c: max_a - g1 + 1,
            a1: a1,
        }
    }
}

/// The generators that `semi` accepts reach every residue modulo the first below
/// `isize::MAX`.
proof fn lemma_semi_residues(s: Seq<usize>)
    requires
        semi_ok(s),
    ensures
        is_min_of(s, s[0] as nat),
        residues_reached_below(s, s[0] as nat, isize::MAX as nat),
{
    let m = s[0] as nat;
    assert(is_min_of(s, m)) by {
        assert forall|i: int| 0 <= i < s.len() implies m <= #[trigger] s[i] by {
            if i > 0 {
                assert(s[0] <= s[i]);
            }
        }
    }
    lemma_seq_max(s);
    let mx = s.last() as nat;
    assert(is_max_of(s, mx)) by {
        assert forall|i: int| 0 <= i < s.len() implies #[trigger] s[i] <= mx by {
            if i < s.len() - 1 {
                assert(s[i] <= s[s.len() - 1]);
            }
        }
        assert(s[s.len() - 1] == mx);
    }
    assert(all_positive(s));
    lemma_residues_below(s, m, mx, isize::MAX as nat);
}

/// Each element is at most the next.
pub open spec fn nondecreasing(s: Seq<usize>) -> bool {
    forall|a: int, b: int| 0 <= a < b < s.len() ==> s[a] <= s[b]
}

/// What `semi` needs of its generators: sorted coprime positive numbers whose first
/// `m >= 2` is their least, with room for twice the largest and for `(m - 1)` times it in
/// an `isize`, a non-member among `m..=2m-2`, and the sums of `Semi::new` in range.
pub open spec fn semi_ok(s: Seq<usize>) -> bool {
    let m = s[0] as nat;
    let ap = apery_seq(s, m);
    &&& s.len() >= 1
    &&& positive_gens(s)
    &&& nondecreasing(s)
    &&& gcd_seq(s) == 1
    &&& m >= 2
    &&& 2 * s.last() <= usize::MAX
    &&& (m - 1) * s.last() < isize::MAX
    &&& exists|x: nat| m <= x <= 2 * m - 2 && !#[trigger] in_sg(s, x)
    &&& 2 * seq_sum(ap) <= usize::MAX
    &&& (m - 1) * m <= usize::MAX
}

/// The window holds, at position `p`, the number `i - ww + p` when it is a member and -1
/// otherwise, for every position before `ww`; from `ww` on it holds -1 or a number whose
/// difference with `i - ww + p` is `mx` and a member.
pub open spec fn window_ok(g: Seq<usize>, w: Seq<isize>, i: int, ww: int, mx: int) -> bool {
    &&& forall|p: int| 0 <= p < ww ==> #[trigger] w[p] == if in_sg(g, (i - ww + p) as nat) { (i - ww + p) as isize } else { -1isize }
    &&& forall|p: int| ww <= p < w.len() ==> #[trigger] w[p] >= -1 && (w[p] >= 0 ==> i - ww + p >= mx && in_sg(g, (i - ww + p - mx) as nat))
}

/// The run of members that ends at `i - 1`: either every number of `m..i` is a member and
/// `runlength` is one more than their count, or `runlength` members end at `i - 1`, preceded
/// by a non-member.
pub open spec fn run_ok(g: Seq<usize>, m: int, i: int, runlength: int) -> bool {
    ||| (runlength == i - m + 1 && forall|x: nat| m <= x < i ==> #[trigger] in_sg(g, x))
    ||| (0 <= runlength <= i - m && (forall|x: nat| i - runlength <= x < i ==> #[trigger] in_sg(g, x))
        && !in_sg(g, (i - runlength - 1) as nat))
}

/// The minimal generators found so far: those below `i`, and `m`.
pub open spec fn gens_found(g: Seq<usize>, m: nat, gens: Seq<usize>, i: nat) -> bool {
    &&& strictly_increasing(gens)
    &&& forall|k: int| 0 <= k < gens.len() ==> #[trigger] gens[k] < i || gens[k] == m
    &&& forall|x: usize| #[trigger] gens.contains(x) <==> (is_min_gen(g, x as nat) && (x < i || x == m))
}

/// Processing number `i` at window position `ww` and moving on keeps the window invariant.
proof fn lemma_window_advance(g: Seq<usize>, w0: Seq<isize>, w1: Seq<isize>, i: int, ww: int, mx: int)
    requires
        0 <= ww < w0.len(),
        ww <= i < isize::MAX,
        window_ok(g, w0, i, ww, mx),
        i >= mx ==> in_sg(g, (i - mx) as nat) ==> in_sg(g, i as nat),
        w1 == if in_sg(g, i as nat) { w0.update(ww, i as isize) } else { w0 },
    ensures
        window_ok(g, w1, i + 1, ww + 1, mx),
        w1.len() == w0.len(),
{
    assert forall|p: int| 0 <= p < ww + 1 implies #[trigger] w1[p] == if in_sg(g, (i + 1 - (ww + 1) + p) as nat) {
        (i + 1 - (ww + 1) + p) as isize
    } else {
        -1isize
    } by {
        if p < ww {
            assert(w0[p] == if in_sg(g, (i - ww + p) as nat) { (i - ww + p) as isize } else { -1isize });
        } else {
            assert(w0[ww] >= -1);
            if !in_sg(g, i as nat) {
                assert(!(w0[ww] >= 0));
            }
        }
    }
    assert forall|p: int| ww + 1 <= p < w1.len() implies #[trigger] w1[p] >= -1 && (w1[p] >= 0 ==> i + 1 - (ww
        + 1) + p >= mx && in_sg(g, (i + 1 - (ww + 1) + p - mx) as nat)) by {
        assert(w0[p] >= -1 && (w0[p] >= 0 ==> i - ww + p >= mx && in_sg(g, (i - ww + p - mx) as nat)));
    }
}

/// Moving the upper half of a full window down to its lower half keeps the window invariant.
proof fn lemma_window_shift(g: Seq<usize>, w1: Seq<isize>, w2: Seq<isize>, i: int, mx: int)
    requires
        mx >= 1,
        i <= isize::MAX,
        w1.len() == 2 * mx,
        w2.len() == 2 * mx,
        i >= 2 * mx,
        window_ok(g, w1, i, 2 * mx, mx),
        forall|j: int| 0 <= j < mx ==> #[trigger] w2[j] == w1[j + mx],
        forall|p: int| mx <= p < 2 * mx ==> #[trigger] w2[p] == w1[p],
    ensures
        window_ok(g, w2, i, mx, mx),
{
    assert forall|p: int| 0 <= p < mx implies #[trigger] w2[p] == if in_sg(g, (i - mx + p) as nat) {
        (i - mx + p) as isize
    } else {
        -1isize
    } by {
        assert(w1[p + mx] == if in_sg(g, (i - 2 * mx + (p + mx)) as nat) { (i - 2 * mx + (p + mx)) as isize } else { -1isize });
    }
    assert forall|p: int| mx <= p < w2.len() implies #[trigger] w2[p] >= -1 && (w2[p] >= 0 ==> i - mx + p >= mx
        && in_sg(g, (i - mx + p - mx) as nat)) by {
        assert(w1[p] == if in_sg(g, (i - 2 * mx + p) as nat) { (i - 2 * mx + p) as isize } else { -1isize });
    }
}

/// The run invariant after processing `i`.
proof fn lemma_run_step(g: Seq<usize>, m: int, i: int, rl0: int, rl1: int)
    requires
        m <= i,
        run_ok(g, m, i, rl0),
        rl1 == if in_sg(g, i as nat) { rl0 + 1 } else { 0 },
    ensures
        run_ok(g, m, i + 1, rl1),
{
    if in_sg(g, i as nat) {
        if rl0 == i - m + 1 && forall|x: nat| m <= x < i ==> #[trigger] in_sg(g, x) {
            assert forall|x: nat| m <= x < i + 1 implies #[trigger] in_sg(g, x) by {
                if x < i {
                }
            }
        } else {
            assert forall|x: nat| i + 1 - rl1 <= x < i + 1 implies #[trigger] in_sg(g, x) by {
                if x < i {
                }
            }
        }
    }
}

/// The first generator after `m` that leads from a member to `i`, where `i` is the first
/// member of its residue class, is `i` itself exactly when `i` is a minimal generator.
proof fn lemma_first_hit_min_gen(g: Seq<usize>, m: nat, i: nat, t: int)
    requires
        positive_gens(g),
        nondecreasing(g),
        is_min_of(g, m),
        m == g[0],
        1 <= t < g.len(),
        g[t] <= i,
        in_sg(g, (i - g[t]) as nat),
        forall|t2: int| 1 <= t2 < t ==> !(#[trigger] g[t2] <= i && in_sg(g, (i - g[t2]) as nat)),
        forall|y: nat| y < i && y % m == i % m ==> !#[trigger] in_sg(g, y),
    ensures
        in_sg(g, i),
        is_min_gen(g, i) <==> g[t] == i,
{
    lemma_member_unfold(g, i);
    if g[t] == i {
        assert forall|y: nat| 0 < y < i && #[trigger] in_sg(g, y) implies !in_sg(g, (i - y) as nat) by {
            if in_sg(g, (i - y) as nat) {
                lemma_member_unfold(g, y);
                let q = choose|q: int| 0 <= q < g.len() && 0 < #[trigger] g[q] <= y && in_sg(g, (y - g[q]) as nat);
                lemma_add_members(g, (y - g[q]) as nat, (i - y) as nat);
                assert((y - g[q]) + (i - y) == i - g[q]);
                if q == 0 {
                    assert(((i - m) as nat) % m == i % m) by {
                        lemma_mod_sub_multiples_vanish(i as int, m as int);
                    }
                    assert(!in_sg(g, (i - m) as nat));
                } else if q >= t {
                    assert(g[t] <= g[q]);
                } else {
                    assert(!(g[q] <= i && in_sg(g, (i - g[q]) as nat)));
                }
            }
        }
    } else {
        lemma_add_gen(g, 0, t);
        if is_min_gen(g, i) {
            assert(0 < g[t] < i && in_sg(g, g[t] as nat));
        }
    }
}

/// Without any generator after `m` leading from a member to `i`, and without a member
/// below `i` in its residue class, `i` is not a member.
proof fn lemma_no_hit(g: Seq<usize>, m: nat, i: nat)
    requires
        positive_gens(g),
        is_min_of(g, m),
        m == g[0],
        m > 0,
        i > 0,
        forall|t2: int| 1 <= t2 < g.len() ==> !(#[trigger] g[t2] <= i && in_sg(g, (i - g[t2]) as nat)),
        forall|y: nat| y < i && y % m == i % m ==> !#[trigger] in_sg(g, y),
    ensures
        !in_sg(g, i),
{
    lemma_member_unfold(g, i);
    if in_sg(g, i) {
        let q = choose|q: int| 0 <= q < g.len() && 0 < #[trigger] g[q] <= i && in_sg(g, (i - g[q]) as nat);
        if q == 0 {
            assert(((i - m) as nat) % m == i % m) by {
                lemma_mod_sub_multiples_vanish(i as int, m as int);
            }
        } else {
            assert(!(g[q] <= i && in_sg(g, (i - g[q]) as nat)));
        }
    }
}

/// The Apéry table after processing `i`.
pub(crate) proof fn lemma_found_step(g: Seq<usize>, m: nat, ap0: Seq<usize>, ap1: Seq<usize>, i: nat)
    requires
        m > 0,
        apery_found(g, m, ap0, i, i),
        0 < i <= usize::MAX,
        (ap1 == ap0 && (!in_sg(g, i) || i % m == 0 || ap0[(i % m) as int] != 0)) || (ap1 == ap0.update(
            (i % m) as int,
            i as usize,
        ) && in_sg(g, i) && i % m != 0 && ap0[(i % m) as int] == 0),
    ensures
        apery_found(g, m, ap1, i + 1, i + 1),
{
    lemma_mod_bound(i as int, m as int);
    assert forall|r: int| 1 <= r < m implies (if #[trigger] ap1[r] == 0 {
        forall|y: nat| y < i + 1 && y % m == r ==> !#[trigger] in_sg(g, y)
    } else {
        is_apery(g, m, r as nat, ap1[r] as nat) && ap1[r] < i + 1
    }) by {
        assert(if ap0[r] == 0 {
            forall|y: nat| y < i && y % m == r ==> !#[trigger] in_sg(g, y)
        } else {
            is_apery(g, m, r as nat, ap0[r] as nat) && ap0[r] < i
        });
        if ap1[r] == 0 {
            assert forall|y: nat| y < i + 1 && y % m == r implies !#[trigger] in_sg(g, y) by {
                if y == i {
                    if ap1 == ap0 {
                        assert(ap0[r] == 0);
                    } else {
                        assert(ap1[(i % m) as int] == i);
                    }
                }
            }
        }
    }
}

/// The minimal generators found after processing `i`.
proof fn lemma_gens_step(g: Seq<usize>, m: nat, gens0: Seq<usize>, gens1: Seq<usize>, i: nat)
    requires
        gens_found(g, m, gens0, i),
        i >= m,
        i <= usize::MAX,
        (gens1 == gens0.push(i as usize) && is_min_gen(g, i) && i > m) || (gens1 == gens0 && (!is_min_gen(g, i) || i == m)),
    ensures
        gens_found(g, m, gens1, i + 1),
{
    if gens1 != gens0 {
        assert forall|a: int, b: int| 0 <= a < b < gens1.len() implies gens1[a] < gens1[b] by {
            if b == gens0.len() {
                assert(gens0[a] < i || gens0[a] == m);
            }
        }
        assert forall|x: usize| #[trigger] gens1.contains(x) <==> (is_min_gen(g, x as nat) && (x < i + 1 || x == m)) by {
            if gens1.contains(x) {
                let k = choose|k: int| 0 <= k < gens1.len() && gens1[k] == x;
                if k < gens0.len() {
                    assert(gens0.contains(x));
                }
            }
            if is_min_gen(g, x as nat) && (x < i + 1 || x == m) {
                if x == i {
                    assert(gens1[gens0.len() as int] == x);
                } else {
                    assert(gens0.contains(x));
                    let k = choose|k: int| 0 <= k < gens0.len() && gens0[k] == x;
                    assert(gens1[k] == x);
                }
            }
        }
    } else {
        assert(gens0.push(i as usize).len() != gens0.len());
        assert(!is_min_gen(g, i) || i == m);
        assert forall|x: usize| #[trigger] gens1.contains(x) <==> (is_min_gen(g, x as nat) && (x < i + 1 || x == m)) by {
            if is_min_gen(g, x as nat) && (x < i + 1 || x == m) && x == i {
                assert(i == m);
            }
        }
    }
}

/// What `semi` gives for `g`: the Apéry set modulo `g[0]`, the members below the
/// conductor, the minimal generators in increasing order, and the fields derived from them.
pub open spec fn semi_post(g: Seq<usize>, res: Semi) -> bool {
    let m = g[0] as nat;
    let ap = apery_seq(g, m);
    &&& semi_fields(res, count_members(g, (seq_max(ap) - m + 1) as nat) as usize, ap, m as usize, res.gen_set@)
    &&& lists_min_gens(g, res.gen_set@)
}

/// The numerical semigroup generated by sorted numbers whose first is the least: Apéry set
/// modulo it, members below the conductor, minimal generators in increasing order, and
/// the quantities derived from them.
#[verifier::rlimit(60)]
pub fn semi(inputnumbers: &[usize]) -> (res: Semi)
    requires
        semi_ok(inputnumbers@),
    ensures
        semi_post(inputnumbers@, res),
{
    let ghost g = inputnumbers@;
    let maximal_input: usize = inputnumbers[inputnumbers.len() - 1];
    let width = 2 * maximal_input;
    let m: usize = inputnumbers[0];
    proof {
        assert(g[0] <= g[g.len() - 1]) by {
            if g.len() > 1 {
                assert(g[0] <= g[g.len() - 1]);
            }
        }
        assert(is_min_of(g, m as nat)) by {
            assert forall|i: int| 0 <= i < g.len() implies m <= #[trigger] g[i] by {
                if i > 0 {
                    assert(g[0] <= g[i]);
                }
            }
        }
        lemma_semi_residues(g);
        lemma_all_apery(g, m as nat, isize::MAX as nat);
        lemma_frobenius(g, m as nat);
    }
    let ghost ma = seq_max(apery_seq(g, m as nat));
    proof {
        lemma_seq_max(apery_seq(g, m as nat));
        let k = choose|k: int| 0 <= k < m && apery_seq(g, m as nat)[k] == ma;
        assert(apery_seq(g, m as nat)[k] == apery(g, m as nat, k as nat));
    }
    let ghost mx = maximal_input as nat;
    let mut aperyset: Vec<usize> = vec![0; m];
    let mut count_set = 0usize;
    let mut window = vec![-1isize; width];
    let mut i: usize = m;
    let mut windowindex = m;
    let mut runlength = 1usize;
    let mut hit: bool = false;
    let mut minimal_generators: Vec<usize> = Vec::with_capacity(m);
    minimal_generators.push(m);
    window.set(0, 0);
    proof {
        lemma_count_below_min(g, m as nat, m as nat);
        lemma_add_gen(g, 0, 0);
        assert forall|p: int| 0 <= p < windowindex implies #[trigger] window@[p] == if in_sg(g, (i - windowindex + p) as nat) {
            (i - windowindex + p) as isize
        } else {
            -1isize
        } by {
            if p > 0 {
                lemma_below_min(g, m as nat, p as nat);
            }
        }
        assert forall|r: int| 1 <= r < m implies (if #[trigger] aperyset@[r] == 0 {
            forall|y: nat| y < i && y % (m as nat) == r ==> !#[trigger] in_sg(g, y)
        } else {
            is_apery(g, m as nat, r as nat, aperyset@[r] as nat) && aperyset@[r] < i
        }) by {
            assert forall|y: nat| y < i && y % (m as nat) == r implies !#[trigger] in_sg(g, y) by {
                if y == 0 {
                    lemma_small_mod(0, m as nat);
                } else {
                    lemma_below_min(g, m as nat, y);
                }
            }
        }
        assert forall|x: usize| #[trigger] minimal_generators@.contains(x) <==> (is_min_gen(g, x as nat) && (x < i || x == m)) by {
            if minimal_generators@.contains(x) {
                assert(minimal_generators@[0] == x);
                assert forall|y: nat| 0 < y < m && #[trigger] in_sg(g, y) implies !in_sg(g, (m - y) as nat) by {
                    lemma_below_min(g, m as nat, y);
                }
            }
            if is_min_gen(g, x as nat) && (x < i || x == m) {
                if x < m {
                    lemma_below_min(g, m as nat, x as nat);
                }
                assert(minimal_generators@[0] == x);
            }
        }
    }
    while runlength < m
        invariant
            g == inputnumbers@,
            positive_gens(g),
            nondecreasing(g),
            is_min_of(g, m as nat),
            m == g[0],
            maximal_input == g[g.len() - 1],
            mx == maximal_input,
            m <= maximal_input,
            m >= 2,
            width == 2 * maximal_input,
            exists|x: nat| m <= x <= 2 * m - 2 && !#[trigger] in_sg(g, x),
            forall|r: nat| r < m ==> is_apery(g, m as nat, r, #[trigger] apery(g, m as nat, r)) && apery(g, m as nat, r) < isize::MAX,
            ma == seq_max(apery_seq(g, m as nat)),
            ma > m,
            ma < isize::MAX,
            !in_sg(g, (ma - m) as nat),
            forall|x: nat| x > ma - m ==> #[trigger] in_sg(g, x),
            m <= i <= ma + 1,
            m <= windowindex < width,
            windowindex <= i,
            windowindex == i || windowindex >= maximal_input,
            window@.len() == width,
            window_ok(g, window@, i as int, windowindex as int, mx as int),
            apery_found(g, m as nat, aperyset@, i as nat, i as nat),
            count_set == count_members(g, i as nat) - 1,
            run_ok(g, m as int, i as int, runlength as int),
            gens_found(g, m as nat, minimal_generators@, i as nat),
            !hit,
        decreases ma + 1 - i,
    {
        proof {
            // the loop has not stopped before the largest Apéry element
            if i == ma + 1 {
                if ma - m + 1 < m {
                    lemma_below_min(g, m as nat, (m - 1) as nat);
                    assert(in_sg(g, (m - 1) as nat));
                }
                if runlength <= i - m {
                    if i - runlength - 1 > ma - m {
                        assert(in_sg(g, (i - runlength - 1) as nat));
                    }
                }
            }
        }
        proof {
            crate::numsg::lemma_count_members_le(g, i as nat);
        }
        let residue = i % m;
        let ghost ww = windowindex;
        let ghost w0 = window@;
        let ghost gens0 = minimal_generators@;
        let ghost count0 = count_set;
        let ghost rl0 = runlength;
        let ghost ap0 = aperyset@;
        proof {
            lemma_mod_bound(i as int, m as int);
            assert(ap0[0] == 0);
        }
        if 0 == residue {
            count_set += 1;
            runlength += 1;
            hit = true;
            window.set(windowindex, i as isize);
            proof {
                lemma_multiple_member(g, m as nat, i as nat);
                if is_min_gen(g, i as nat) {
                    lemma_min_gen_is_flag(g, m as nat, isize::MAX as nat, i as nat);
                }
                lemma_found_step(g, m as nat, ap0, aperyset@, i as nat);
                lemma_gens_step(g, m as nat, gens0, minimal_generators@, i as nat);
            }
        } else if aperyset[residue] > 0 && i > aperyset[residue] {
            count_set += 1;
            runlength += 1;
            hit = true;
            window.set(windowindex, i as isize);
            proof {
                lemma_member_iff_above_apery(g, m as nat, i as nat, aperyset@[residue as int] as nat);
                if is_min_gen(g, i as nat) {
                    lemma_min_gen_is_flag(g, m as nat, isize::MAX as nat, i as nat);
                    lemma_apery_is(g, m as nat, residue as nat, ap0[residue as int] as nat);
                }
                lemma_found_step(g, m as nat, ap0, aperyset@, i as nat);
                lemma_gens_step(g, m as nat, gens0, minimal_generators@, i as nat);
            }
        } else {
            let mut t: usize = 1;
            while t < inputnumbers.len() && !(windowindex >= inputnumbers[t] && window[windowindex - inputnumbers[t]] >= 0)
                invariant
                    g == inputnumbers@,
                    1 <= t <= g.len(),
                    window@ == w0,
                    windowindex == ww,
                    window@.len() == width,
                    m <= windowindex < width,
                    windowindex <= i,
                    windowindex == i || windowindex >= maximal_input,
                    maximal_input == g[g.len() - 1],
                    nondecreasing(g),
                    positive_gens(g),
                    i < isize::MAX,
                    window_ok(g, window@, i as int, windowindex as int, mx as int),
                    forall|t2: int| 1 <= t2 < t ==> !(#[trigger] g[t2] <= i && in_sg(g, (i - g[t2]) as nat)),
                decreases g.len() - t,
            {
                proof {
                    let k = g[t as int];
                    if windowindex < k {
                        if windowindex != i {
                            assert(g[t as int] <= g[g.len() - 1]);
                        }
                    } else {
                        assert(window@[windowindex - k] == if in_sg(g, (i - k) as nat) { (i - k) as isize } else { -1isize });
                    }
                    assert(!(g[t as int] <= i && in_sg(g, (i - g[t as int]) as nat)));
                }
                t = t + 1;
            }
            if t < inputnumbers.len() {
                let k = inputnumbers[t];
                proof {
                    assert(window@[windowindex - k] == if in_sg(g, (i - k) as nat) { (i - k) as isize } else { -1isize });
                    assert(in_sg(g, (i - k) as nat));
                    lemma_first_hit_min_gen(g, m as nat, i as nat, t as int);
                }
                count_set += 1;
                runlength += 1;
                hit = true;
                window.set(windowindex, i as isize);
                aperyset.set(residue, i);
                assert(window@[windowindex - k] == (i - k) as isize);
                assert((window@[windowindex - k] == 0) == (i == k));
                proof {
                    if i == m {
                        lemma_mod_self_0(m as int);
                    }
                }
                assert(i > m);
                if 0 == window[windowindex - k] {
                    minimal_generators.push(i);
                }
                proof {
                    assert(is_apery(g, m as nat, residue as nat, i as nat));
                    lemma_found_step(g, m as nat, ap0, aperyset@, i as nat);
                    lemma_gens_step(g, m as nat, gens0, minimal_generators@, i as nat);
                }
            } else {
                proof {
                    lemma_no_hit(g, m as nat, i as nat);
                    lemma_found_step(g, m as nat, ap0, aperyset@, i as nat);
                    lemma_gens_step(g, m as nat, gens0, minimal_generators@, i as nat);
                }
            }
        }
        proof {
            let last = (g.len() - 1) as int;
            if i >= mx && in_sg(g, (i - mx) as nat) {
                lemma_add_gen(g, (i - mx) as nat, last);
            }
            lemma_window_advance(g, w0, window@, i as int, ww as int, mx as int);
            lemma_run_step(g, m as int, i as int, rl0 as int, if hit { rl0 + 1 } else { 0 });
        }
        if !hit {
            runlength = 0;
        }
        hit = false;
        i += 1;
        if windowindex == width - 1 {
            let ghost w1 = window@;
            let mut j: usize = 0;
            while j < maximal_input
                invariant
                    window@.len() == width,
                    width == 2 * maximal_input,
                    w1.len() == width,
                    0 <= j <= maximal_input,
                    forall|a: int| 0 <= a < j ==> #[trigger] window@[a] == w1[a + maximal_input],
                    forall|a: int| j <= a < width ==> #[trigger] window@[a] == w1[a],
                decreases maximal_input - j,
            {
                window.set(j, window[j + maximal_input]);
                j = j + 1;
            }
            proof {
                lemma_window_shift(g, w1, window@, i as int, mx as int);
            }
            windowindex = maximal_input;
        } else {
            windowindex += 1;
        }
    }
    proof {
        let mn = m as nat;
        let ap = apery_seq(g, mn);
        // the loop stops right after the largest Apéry element
        let kk = choose|x: nat| m <= x <= 2 * m - 2 && !#[trigger] in_sg(g, x);
        if runlength == i - m + 1 && forall|x: nat| m <= x < i ==> #[trigger] in_sg(g, x) {
            assert(in_sg(g, kk));
        }
        assert(forall|x: nat| i - m <= x < i ==> #[trigger] in_sg(g, x));
        if i <= ma {
            lemma_run_closure(g, mn, (i - m) as nat, (ma - m) as nat);
        }
        assert(i == ma + 1);
        // the Apéry table is complete
        lemma_seq_max(ap);
        assert forall|r: int| 0 <= r < m implies #[trigger] aperyset@[r] == ap[r] by {
            if r == 0 {
                lemma_apery_zero(g, mn);
                lemma_apery_is(g, mn, 0, 0);
            } else {
                let a = apery(g, mn, r as nat);
                assert(ap[r] == a);
                if aperyset@[r] == 0 {
                    assert(!in_sg(g, a));
                }
                lemma_apery_is(g, mn, r as nat, aperyset@[r] as nat);
            }
        }
        assert(aperyset@ =~= ap);
        assert forall|r: int| 1 <= r < m implies #[trigger] ap[r] > m by {
            assert(ap[r] == apery(g, mn, r as nat));
            crate::numsg::lemma_apery_above_min(g, mn, r as nat, apery(g, mn, r as nat));
        }
        // members below the conductor
        lemma_count_run(g, (ma - m + 1) as nat, mn);
        crate::numsg::lemma_count_members_pos(g, (ma - m + 1) as nat);
        // the minimal generators are all below the largest Apéry element
        assert forall|x: usize| #[trigger] minimal_generators@.contains(x) <==> is_min_gen(g, x as nat) by {
            if is_min_gen(g, x as nat) {
                lemma_min_gen_is_flag(g, mn, isize::MAX as nat, x as nat);
                lemma_mod_bound(x as int, m as int);
                if (x as nat) % mn != 0 {
                    assert(ap[((x as nat) % mn) as int] == x);
                }
            }
        }
    }
    proof {
        lemma_apery_table_new_ok(aperyset@, m);
    }
    Semi::new(count_set - m + 1, aperyset, m, minimal_generators)
}

/// Two strictly increasing sequences with the same elements are equal.
pub proof fn lemma_strictly_increasing_unique(a: Seq<usize>, b: Seq<usize>)
    requires
        strictly_increasing(a),
        strictly_increasing(b),
        forall|x: usize| #[trigger] a.contains(x) <==> b.contains(x),
    ensures
        a == b,
    decreases a.len(),
{
    if a.len() == 0 {
        if b.len() > 0 {
            assert(b[0] == b[0]);
            assert(b.contains(b[0]));
            assert(a.contains(b[0]));
        }
        assert(a =~= b);
    } else {
        assert(a[0] == a[0]);
        assert(a.contains(a[0]));
        assert(b.contains(a[0]));
        assert(b[0] == b[0]);
        assert(b.contains(b[0]));
        assert(a.contains(b[0]));
        let k = choose|k: int| 0 <= k < b.len() && b[k] == a[0];
        let j = choose|j: int| 0 <= j < a.len() && a[j] == b[0];
        if k > 0 {
            assert(b[0] < b[k]);
        }
        if j > 0 {
            assert(a[0] < a[j]);
        }
        assert(a[0] == b[0]);
        let a1 = a.drop_first();
        let b1 = b.drop_first();
        assert forall|x: usize| #[trigger] a1.contains(x) <==> b1.contains(x) by {
            if a1.contains(x) {
                let i = choose|i: int| 0 <= i < a1.len() && a1[i] == x;
                assert(a[i + 1] == x);
                assert(a.contains(x));
                assert(b.contains(x));
                let i2 = choose|i2: int| 0 <= i2 < b.len() && b[i2] == x;
                if i2 == 0 {
                    assert(a[0] < a[i + 1]);
                }
                assert(b1[i2 - 1] == x);
            }
            if b1.contains(x) {
                let i = choose|i: int| 0 <= i < b1.len() && b1[i] == x;
                assert(b[i + 1] == x);
                assert(b.contains(x));
                assert(a.contains(x));
                let i2 = choose|i2: int| 0 <= i2 < a.len() && a[i2] == x;
                if i2 == 0 {
                    assert(b[0] < b[i + 1]);
                }
                assert(a1[i2 - 1] == x);
            }
        }
        lemma_strictly_increasing_unique(a1, b1);
        assert(a =~= b) by {
            assert forall|i: int| 0 <= i < a.len() implies a[i] == b[i] by {
                if i > 0 {
                    assert(a[i] == a1[i - 1] && b[i] == b1[i - 1]);
                }
            }
        }
    }
}

/// Whether a batch row can stop at the semigroup `res`: it has the Frobenius number and
/// the member count of the semigroup `stable` of the whole window.
pub fn row_is_stable(stable: &Semi, res: &Semi) -> (b: bool)
    ensures
        b == (stable.maxgap == res.maxgap && stable.count_set == res.count_set),
{
    stable.maxgap == res.maxgap && stable.count_set == res.count_set
}

/// `semi` on the generators that it accepts, and `None` on the others: an empty list, a
/// zero, a list out of order, numbers not coprime, a first number below 2, no room for
/// twice the largest or for `(m - 1)` times it in an `isize`, every number of `m..=2m-2` a
/// member, or the sums of the Apéry set out of range.
pub fn try_semi(inputnumbers: &[usize]) -> (res: Option<Semi>)
    ensures
        res is Some <==> semi_ok(inputnumbers@),
        res matches Some(r) ==> semi_post(inputnumbers@, r),
{
    let ghost s = inputnumbers@;
    let len = inputnumbers.len();
    if len == 0 {
        return None;
    }
    let mut k: usize = 0;
    while k < len
        invariant
            s == inputnumbers@,
            len == s.len(),
            0 <= k <= len,
            forall|i: int| 0 <= i < k ==> #[trigger] s[i] > 0,
            forall|a: int, b: int| 0 <= a < b < k ==> s[a] <= s[b],
        decreases len - k,
    {
        if inputnumbers[k] == 0 {
            assert(!positive_gens(s));
            return None;
        }
        if k > 0 && inputnumbers[k - 1] > inputnumbers[k] {
            assert(!nondecreasing(s));
            return None;
        }
        k = k + 1;
    }
    assert(positive_gens(s));
    assert(nondecreasing(s));
    assert(all_positive(s));
    if gcd_vec(inputnumbers) != 1 {
        return None;
    }
    let m = inputnumbers[0];
    let last = inputnumbers[len - 1];
    if m < 2 {
        return None;
    }
    if last > usize::MAX / 2 {
        return None;
    }
    let below = match (m - 1).checked_mul(last) {
        Some(v) => v,
        None => return None,
    };
    if below >= isize::MAX as usize {
        return None;
    }
    if (m - 1).checked_mul(m).is_none() {
        return None;
    }
    proof {
        assert(s[0] <= s[len - 1]) by {
            if len > 1 {
                assert(s[0] <= s[len - 1]);
            }
        }
        assert(is_min_of(s, m as nat)) by {
            assert forall|i: int| 0 <= i < s.len() implies m <= #[trigger] s[i] by {
                if i > 0 {
                    assert(s[0] <= s[i]);
                }
            }
        }
        assert(is_max_of(s, last as nat)) by {
            assert forall|i: int| 0 <= i < s.len() implies #[trigger] s[i] <= last by {
                if i < len - 1 {
                    assert(s[i] <= s[len - 1]);
                }
            }
        }
        lemma_residues_below(s, m as nat, last as nat, (below + 1) as nat);
    }
    let limit = below + 1;
    let mut input: Vec<usize> = Vec::new();
    let mut j: usize = 0;
    while j < len
        invariant
            s == inputnumbers@,
            len == s.len(),
            0 <= j <= len,
            input@ =~= s.take(j as int),
        decreases len - j,
    {
        input.push(inputnumbers[j]);
        j = j + 1;
    }
    assert(input@ =~= s);
    assert(m <= limit) by (nonlinear_arith)
        requires below == (m - 1) * last, last >= m, m >= 2, limit == below + 1;
    let (table, aperyset) = sieve(&input, m, limit);
    let total = match checked_total(&aperyset) {
        Some(t) => t,
        None => return None,
    };
    if total > usize::MAX / 2 {
        return None;
    }
    proof {
        lemma_all_apery(s, m as nat, limit as nat);
        lemma_frobenius(s, m as nat);
    }
    // a number of `m..=2m-2` that is not a member
    let top = 2 * m - 2;
    let mut x: usize = m;
    let mut found = false;
    while x <= top
        invariant
            s == input@,
            table@.len() == seq_max(apery_seq(s, m as nat)) + 1,
            forall|y: int| 0 <= y < table@.len() ==> #[trigger] table@[y] == if in_sg(s, y as nat) { 1u8 } else { 0u8 },
            forall|y: nat| y > seq_max(apery_seq(s, m as nat)) - m ==> #[trigger] in_sg(s, y),
            top == 2 * m - 2,
            m <= x <= top + 1,
            top + 1 <= usize::MAX,
            !found ==> forall|y: nat| m <= y < x ==> #[trigger] in_sg(s, y),
            found ==> exists|y: nat| m <= y <= 2 * m - 2 && !#[trigger] in_sg(s, y),
        decreases top + 1 - x,
    {
        if x < table.len() && table[x] == 0 {
            assert(!in_sg(s, x as nat));
            found = true;
        }
        if !found && x >= table.len() {
            assert(in_sg(s, x as nat));
        }
        x = x + 1;
    }
    if !found {
        assert forall|y: nat| m <= y <= 2 * m - 2 implies #[trigger] in_sg(s, y) by {}
        return None;
    }
    Some(semi(inputnumbers))
}

/// On sorted numbers that both accept, `semi` and `generatewilf` describe the same
/// semigroup: the same multiplicity, Apéry set, largest Apéry element, its sum, conductor,
/// number of members below it, minimal generators and their number.
pub proof fn lemma_semi_agrees_with_generatewilf(s: Seq<usize>, w: WilfSet, r: Semi)
    requires
        semi_ok(s),
        generatewilf_ok(s),
        semi_post(s, r),
        generatewilf_post(s, w),
    ensures
        w.g1 == r.g1,
        w.apery@ == r.apery@,
        w.max_a == r.max_a,
        w.sum_a == r.sum_a,
        w.double_avg_a == r.double_avg_a,
        w.maxgap == r.maxgap,
        w.c == r.c,
        w.a1 == r.a1,
        w.count_set == r.count_set,
        w.gen_set@ == r.gen_set@,
        w.e == r.e,
        w.count_gap == r.count_gap,
{
    let m = s[0] as nat;
    // the numbers are coprime, so dividing by their gcd changes nothing
    lemma_gcd_seq_properties(s);
    assert forall|i: int| 0 <= i < s.len() implies (s[i] as nat) / 1 == s[i] by {}
    assert(reduce(s) =~= s);
    // the least number is the first
    lemma_seq_min(s);
    let k = choose|k: int| 0 <= k < s.len() && s[k] == seq_min(s);
    if k > 0 {
        assert(s[0] <= s[k]);
    }
    assert(seq_min(s) == m);
    lemma_strictly_increasing_unique(w.gen_set@, r.gen_set@);
    lemma_semi_gap_count(s, r);
}

/// The gaps that `semi` counts by Selmer's formula are the numbers below the conductor
/// that are not among its `count_set` members.
pub proof fn lemma_semi_gap_count(s: Seq<usize>, r: Semi)
    requires
        semi_ok(s),
        semi_post(s, r),
    ensures
        r.count_set <= r.c,
        r.count_gap == r.c - r.count_set,
{
    let m = s[0] as nat;
    lemma_semi_residues(s);
    lemma_all_apery(s, m, isize::MAX as nat);
    lemma_selmer(s, m);
}

} // verus!

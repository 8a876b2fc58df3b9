//! The numerical semigroup of a list of numbers computed by a sieve over its
//! members, with its Apéry set, conductor, minimal generators and the
//! quantities of Wilf's conjecture.
use vstd::prelude::*;
use vstd::arithmetic::div_mod::*;
use vstd::arithmetic::mul::lemma_mul_equality_converse;
use crate::gaps::{lemma_selmer, lemma_selmer_modulus};
use crate::residues::{lemma_reduce_coprime, lemma_residues_below};
use crate::modules::semigroup::selmer_gaps;
use crate::modules::{all_positive, gcd_seq, gcd_vec, lemma_gcd_seq_properties, lemma_gcd_seq_same_elements, lemma_gcd_seq_scaled, scaled, divides};
use crate::modules::semigroup::lemma_strictly_increasing_unique;
use crate::numsg::{
    apery, apery_seq, is_min_gen, lemma_add_gen, lemma_multiple_member, lemma_positive_member_ge_min,
    count_members, in_sg, is_apery, is_min_of, lemma_add_members, lemma_all_apery,
    lemma_apery_above_min, lemma_apery_is, lemma_apery_zero, lemma_run_closure, lemma_frobenius, lemma_member_unfold, lemma_seq_max,
    lemma_seq_min, lemma_step_in, positive_gens, residues_reached_below, seq_max, seq_min, seq_sum,
    step_in, lemma_in_sg_same_elements, same_elements,
};

verus! {

/// `ap[i] + ap[j]` equals `ap[r]` for non-zero residues `i`, `j` with `i + j = r` modulo
/// the length of `ap`.
pub open spec fn is_pair_sum(ap: Seq<usize>, r: int, i: int, j: int) -> bool {
    &&& 1 <= i < ap.len()
    &&& 1 <= j < ap.len()
    &&& (i + j) % (ap.len() as int) == r
    &&& ap[i] + ap[j] == ap[r]
}

/// `ap[r]` is the sum of two entries with non-zero index.
pub open spec fn is_sum_of_two(ap: Seq<usize>, r: int) -> bool {
    exists|i: int, j: int| #[trigger] is_pair_sum(ap, r, i, j)
}

/// Some pair `(i', j')` before `(i, j)` in row-major order over `[1, len)²` has `ap[i'] + ap[j'] == ap[r]`.
pub open spec fn killed_before(ap: Seq<usize>, r: int, i: int, j: int) -> bool {
    exists|i2: int, j2: int| #[trigger] is_pair_sum(ap, r, i2, j2) && (i2 < i || (i2 == i && j2 < j))
}

/// The generator flag of residue `r`: `g1` for residue 0, 0 where `ap[r]` is a sum of two
/// entries, `ap[r]` otherwise.
pub open spec fn gen_flag(ap: Seq<usize>, g1: usize, r: int) -> usize {
    if r == 0 {
        g1
    } else if is_sum_of_two(ap, r) {
        0
    } else {
        ap[r]
    }
}

/// The entry `(i, j)` of the lambda matrix: `(ap[i] + ap[j] - ap[(i + j) % len]) / g1`.
pub open spec fn lambda_entry(ap: Seq<usize>, g1: usize, i: int, j: int) -> int {
    (ap[i] + ap[j] - ap[(i + j) % (ap.len() as int)]) / (g1 as int)
}

/// The pairwise sums of non-zero entries are defined, at least the entry of their residue,
/// and differ from it by a multiple of `g1`.
#[verifier::opaque]
pub open spec fn apery_sums_ok(ap: Seq<usize>, g1: usize) -> bool {
    forall|i: int, j: int|
        1 <= i < ap.len() && 1 <= j < ap.len() ==> {
            &&& #[trigger] ap[i] + #[trigger] ap[j] <= usize::MAX
            &&& ap[i] + ap[j] >= ap[(i + j) % (ap.len() as int)]
            &&& (ap[i] + ap[j] - ap[(i + j) % (ap.len() as int)]) % (g1 as int) == 0
        }
}

/// The entries of `mat` in rows `1..i` and in row `i` up to column `j` (exclusive), from
/// column 1 on, are the lambda entries; the others are those of `mat0`.
#[verifier::opaque]
pub open spec fn lambda_filled(mat: Seq<Vec<usize>>, mat0: Seq<Vec<usize>>, ap: Seq<usize>, g1: usize, i: int, j: int) -> bool {
    forall|a: int, b: int|
        0 <= a < g1 && 0 <= b < g1 ==> #[trigger] mat[a]@[b] == if (1 <= a < i && b >= 1) || (a == i && 1 <= b < j) {
            lambda_entry(ap, g1, a, b)
        } else {
            mat0[a]@[b] as int
        }
}



proof fn lemma_sums_ok_at(ap: Seq<usize>, g1: usize, i: int, j: int)
    requires
        apery_sums_ok(ap, g1),
        1 <= i < ap.len(),
        1 <= j < ap.len(),
    ensures
        ap[i] + ap[j] <= usize::MAX,
        ap[i] + ap[j] >= ap[(i + j) % (ap.len() as int)],
        (ap[i] + ap[j] - ap[(i + j) % (ap.len() as int)]) % (g1 as int) == 0,
{
    reveal(apery_sums_ok);
    assert(ap[i] + ap[j] <= usize::MAX);
}

/// A `n` by `n` matrix.
pub open spec fn is_square(mat: Seq<Vec<usize>>, n: nat) -> bool {
    mat.len() == n && forall|i: int| 0 <= i < n ==> (#[trigger] mat[i])@.len() == n
}

/// The flags of residues `1..len` record the pairs before `(i, j)`.
#[verifier::opaque]
pub open spec fn flags_upto(gen: Seq<usize>, ap: Seq<usize>, i: int, j: int) -> bool {
    forall|r: int| 1 <= r < ap.len() ==> #[trigger] gen[r] == if killed_before(ap, r, i, j) { 0 } else { ap[r] }
}

proof fn lemma_flags_step(gen: Seq<usize>, gen_old: Seq<usize>, ap: Seq<usize>, i: int, j: int)
    requires
        1 <= i < ap.len(),
        1 <= j < ap.len(),
        gen.len() == gen_old.len() == ap.len(),
        flags_upto(gen_old, ap, i, j),
        gen == if ap[i] + ap[j] == ap[(i + j) % (ap.len() as int)] && (i + j) % (ap.len() as int) > 0 {
            gen_old.update((i + j) % (ap.len() as int), 0)
        } else {
            gen_old
        },
    ensures
        flags_upto(gen, ap, i, j + 1),
{
    reveal(flags_upto);
    assert forall|r: int| 1 <= r < ap.len() implies #[trigger] gen[r] == if killed_before(ap, r, i, j + 1) {
        0
    } else {
        ap[r]
    } by {
        lemma_killed_step(ap, r, i, j);
        assert(gen_old[r] == if killed_before(ap, r, i, j) { 0 } else { ap[r] });
    }
}

proof fn lemma_flags_row_end(gen: Seq<usize>, ap: Seq<usize>, i: int)
    requires
        1 <= i < ap.len(),
        gen.len() == ap.len(),
        flags_upto(gen, ap, i, ap.len() as int),
    ensures
        flags_upto(gen, ap, i + 1, 1),
{
    reveal(flags_upto);
    assert forall|r: int| 1 <= r < ap.len() implies #[trigger] gen[r] == if killed_before(ap, r, i + 1, 1) {
        0
    } else {
        ap[r]
    } by {
        lemma_killed_row_end(ap, r, i);
        assert(gen[r] == if killed_before(ap, r, i, ap.len() as int) { 0 } else { ap[r] });
    }
}

proof fn lemma_killed_step(ap: Seq<usize>, r: int, i: int, j: int)
    requires
        1 <= r < ap.len(),
        1 <= i < ap.len(),
        1 <= j < ap.len(),
    ensures
        killed_before(ap, r, i, j + 1) <==> (killed_before(ap, r, i, j) || (
        (i + j) % (ap.len() as int) == r && ap[i] + ap[j] == ap[r])),
{
    if (i + j) % (ap.len() as int) == r && ap[i] + ap[j] == ap[r] {
        assert(is_pair_sum(ap, r, i, j));
    }
    if killed_before(ap, r, i, j + 1) && !killed_before(ap, r, i, j) {
        let (i2, j2) = choose|i2: int, j2: int|
            #[trigger] is_pair_sum(ap, r, i2, j2) && (i2 < i || (i2 == i && j2 < j + 1));
        assert(i2 == i && j2 == j);
    }
    if killed_before(ap, r, i, j) {
        let (i2, j2) = choose|i2: int, j2: int|
            #[trigger] is_pair_sum(ap, r, i2, j2) && (i2 < i || (i2 == i && j2 < j));
        assert(is_pair_sum(ap, r, i2, j2) && (i2 < i || (i2 == i && j2 < j + 1)));
    }
}

proof fn lemma_killed_row_end(ap: Seq<usize>, r: int, i: int)
    requires
        1 <= i < ap.len(),
    ensures
        killed_before(ap, r, i, ap.len() as int) <==> killed_before(ap, r, i + 1, 1),
{
    if killed_before(ap, r, i + 1, 1) {
        let (i2, j2) = choose|i2: int, j2: int|
            #[trigger] is_pair_sum(ap, r, i2, j2) && (i2 < i + 1 || (i2 == i + 1 && j2 < 1));
        assert(is_pair_sum(ap, r, i2, j2) && (i2 < i || (i2 == i && j2 < ap.len())));
    }
    if killed_before(ap, r, i, ap.len() as int) {
        let (i2, j2) = choose|i2: int, j2: int|
            #[trigger] is_pair_sum(ap, r, i2, j2) && (i2 < i || (i2 == i && j2 < ap.len()));
        assert(is_pair_sum(ap, r, i2, j2) && (i2 < i + 1 || (i2 == i + 1 && j2 < 1)));
    }
}

/// Flags of the Apéry elements that are not the sum of two non-zero Apéry elements, and
/// the lambda matrix written into `tmp_lambda` from index 1 on.
fn find_generator_flags(apery: &Vec<usize>, g1: usize, tmp_lambda: &mut Vec<Vec<usize>>) -> (gen: Vec<usize>)
    requires
        apery@.len() == g1,
        g1 >= 1,
        2 * g1 <= usize::MAX,
        apery_sums_ok(apery@, g1),
        is_square(old(tmp_lambda)@, g1 as nat),
    ensures
        gen@.len() == g1,
        forall|r: int| 0 <= r < g1 ==> #[trigger] gen@[r] == gen_flag(apery@, g1, r),
        is_square(final(tmp_lambda)@, g1 as nat),
        forall|i: int, j: int|
            0 <= i < g1 && 0 <= j < g1 ==> #[trigger] final(tmp_lambda)@[i]@[j] == if i >= 1 && j >= 1 {
                lambda_entry(apery@, g1, i, j)
            } else {
                old(tmp_lambda)@[i]@[j] as int
            },
{
    let len = apery.len();
    let mut gen = apery.clone();
    gen.set(0, g1);
    let ghost ap = apery@;
    let ghost lam0 = tmp_lambda@;
    let mut i: usize = 1;
    proof {
        reveal(lambda_filled);
        reveal(flags_upto);
        assert forall|r: int| 1 <= r < len implies !killed_before(ap, r, 1, 1) by {
            if killed_before(ap, r, 1, 1) {
                let (i2, j2) = choose|i2: int, j2: int| #[trigger] is_pair_sum(ap, r, i2, j2) && (i2 < 1 || (i2 == 1 && j2 < 1));
            }
        }
    }
    while i < len
        invariant
            len == g1 == ap.len(),
            2 * g1 <= usize::MAX,
            ap == apery@,
            1 <= i <= len,
            apery_sums_ok(ap, g1),
            gen@.len() == len,
            gen@[0] == g1,
            flags_upto(gen@, ap, i as int, 1),
            is_square(tmp_lambda@, g1 as nat),
            is_square(lam0, g1 as nat),
            lambda_filled(tmp_lambda@, lam0, ap, g1, i as int, 1),
        decreases len - i,
    {
        let mut row: Vec<usize> = Vec::new();
        tmp_lambda.set_and_swap(i, &mut row);
        let ghost lam_i = tmp_lambda@;
        proof {
            reveal(lambda_filled);
            assert(row@ == lam0[i as int]@);
        }
        let mut j: usize = 1;
        while j < len
            invariant
                len == g1 == ap.len(),
                2 * g1 <= usize::MAX,
                ap == apery@,
                1 <= i < len,
                1 <= j <= len,
                apery_sums_ok(ap, g1),
                gen@.len() == len,
                gen@[0] == g1,
                flags_upto(gen@, ap, i as int, j as int),
                tmp_lambda@ == lam_i,
                row@.len() == g1,
                forall|b: int| 0 <= b < g1 ==> #[trigger] row@[b] == if 1 <= b < j {
                    lambda_entry(ap, g1, i as int, b)
                } else {
                    lam0[i as int]@[b] as int
                },
            decreases len - j,
        {
            let index = (i + j) % len;
            proof {
                lemma_sums_ok_at(ap, g1, i as int, j as int);
            }
            let lambda = apery[i] + apery[j] - apery[index];
            assert(lambda / g1 == lambda_entry(ap, g1, i as int, j as int));
            let ghost gen_old = gen@;
            row.set(j, lambda / g1);
            if 0 == lambda && index > 0 {
                gen.set(index, 0);
            }
            proof {
                lemma_flags_step(gen@, gen_old, ap, i as int, j as int);
            }
            j = j + 1;
        }
        tmp_lambda.set_and_swap(i, &mut row);
        proof {
            lemma_flags_row_end(gen@, ap, i as int);
            reveal(lambda_filled);
            assert forall|a: int| 0 <= a < g1 implies (#[trigger] tmp_lambda@[a])@.len() == g1 by {
                if a != i {
                    assert(tmp_lambda@[a] == lam_i[a]);
                }
            }
            assert forall|a: int, b: int| 0 <= a < g1 && 0 <= b < g1 implies #[trigger] tmp_lambda@[a]@[b]
                == if (1 <= a < i + 1 && b >= 1) || (a == i + 1 && 1 <= b < 1) {
                lambda_entry(ap, g1, a, b)
            } else {
                lam0[a]@[b] as int
            } by {
                if a != i {
                    assert(tmp_lambda@[a] == lam_i[a]);
                }
            }
        }
        i = i + 1;
    }
    proof {
        reveal(lambda_filled);
        reveal(flags_upto);
        assert forall|r: int| 1 <= r < len implies killed_before(ap, r, len as int, 1) == is_sum_of_two(ap, r) by {
            if is_sum_of_two(ap, r) {
                let (i2, j2) = choose|i2: int, j2: int| #[trigger] is_pair_sum(ap, r, i2, j2);
                assert(is_pair_sum(ap, r, i2, j2) && (i2 < len || (i2 == len && j2 < 1)));
            }
        }
    }
    gen
}

/// The flags of all residues.
pub open spec fn flags_seq(ap: Seq<usize>, g1: usize) -> Seq<usize> {
    Seq::new(g1 as nat, |r: int| gen_flag(ap, g1, r))
}

/// Each element is smaller than the next.
pub open spec fn strictly_increasing(s: Seq<usize>) -> bool {
    forall|a: int, b: int| 0 <= a < b < s.len() ==> s[a] < s[b]
}

/// Number of non-zero entries.
pub open spec fn nonzero_count(f: Seq<usize>) -> nat
    decreases f.len(),
{
    if f.len() == 0 {
        0
    } else {
        nonzero_count(f.drop_last()) + if f.last() > 0 {
            1nat
        } else {
            0nat
        }
    }
}

/// `gs` lists the non-zero entries of `f` in increasing order.
pub open spec fn sorted_nonzero_of(gs: Seq<usize>, f: Seq<usize>) -> bool {
    &&& strictly_increasing(gs)
    &&& gs.len() == nonzero_count(f)
    &&& forall|x: usize| #[trigger] gs.contains(x) <==> (x > 0 && f.contains(x))
}

/// Number of ones among the first `n` entries.
pub open spec fn count_ones(set: Seq<u8>, n: nat) -> nat
    decreases n,
{
    if n == 0 {
        0
    } else {
        count_ones(set, (n - 1) as nat) + if set[n - 1] == 1 {
            1nat
        } else {
            0nat
        }
    }
}

/// Inserts `v` at its place in a strictly increasing vector that lacks it.
fn insert_sorted(gs: &mut Vec<usize>, v: usize)
    requires
        strictly_increasing(old(gs)@),
        !old(gs)@.contains(v),
    ensures
        strictly_increasing(final(gs)@),
        final(gs)@.len() == old(gs)@.len() + 1,
        forall|x: usize| #[trigger] final(gs)@.contains(x) <==> (old(gs)@.contains(x) || x == v),
{
    let mut p: usize = 0;
    while p < gs.len() && gs[p] < v
        invariant
            0 <= p <= gs@.len(),
            forall|a: int| 0 <= a < p ==> gs@[a] < v,
        decreases gs@.len() - p,
    {
        p = p + 1;
    }
    let ghost old_gs = gs@;
    proof {
        if p < gs@.len() {
            assert(gs@[p as int] != v) by {
                if gs@[p as int] == v {
                    assert(old_gs.contains(v));
                }
            }
        }
    }
    gs.insert(p, v);
    proof {
        let n = gs@;
        assert(n == old_gs.insert(p as int, v));
        assert forall|a: int, b: int| 0 <= a < b < n.len() implies n[a] < n[b] by {
            if b < p {
            } else if a < p && b == p {
            } else if a < p {
                assert(n[b] == old_gs[b - 1]);
                assert(old_gs[p as int] > v);
                assert(old_gs[p as int] <= old_gs[b - 1]);
            } else if a == p {
                assert(n[b] == old_gs[b - 1]);
                assert(old_gs[p as int] <= old_gs[b - 1]);
            } else {
                assert(n[a] == old_gs[a - 1] && n[b] == old_gs[b - 1]);
            }
        }
        assert forall|x: usize| #[trigger] n.contains(x) <==> (old_gs.contains(x) || x == v) by {
            if n.contains(x) {
                let k = choose|k: int| 0 <= k < n.len() && n[k] == x;
                if k < p {
                    assert(old_gs[k] == x);
                } else if k > p {
                    assert(old_gs[k - 1] == x);
                }
            }
            if old_gs.contains(x) {
                let k = choose|k: int| 0 <= k < old_gs.len() && old_gs[k] == x;
                if k < p {
                    assert(n[k] == x);
                } else {
                    assert(n[k + 1] == x);
                }
            }
            if x == v {
                assert(n[p as int] == v);
            }
        }
    }
}

/// A numerical semigroup with the quantities of Wilf's conjecture.
///
/// `set[x]` is 1 when `x` is a member, `apery[r]` the least member congruent to `r`
/// modulo the multiplicity `g1`, `c` the conductor, `count_set` the number of members
/// below `c`, `count_gap` the number of gaps, `gen_set` the minimal generators and `e`
/// their number.
pub struct WilfSet {
    pub defect: usize,
    pub set: Vec<u8>,
    pub apery: Vec<usize>,
    pub max_a: usize,
    pub sum_a: usize,
    pub double_avg_a: usize,
    pub maxgap: usize,
    pub g1: usize,
    pub count_set: usize,
    pub count_gap: usize,
    pub gen_flags: Vec<usize>,
    pub gen_set: Vec<usize>,
    pub e: usize,
    pub c: usize,
    pub lambda_matrix: Vec<Vec<usize>>,
    pub a1: usize,
}

/// Conductor computed from an Apéry set: its largest element minus `g1`, plus one.
pub open spec fn conductor_of(ap: Seq<usize>, g1: usize) -> int {
    seq_max(ap) - g1 + 1
}

/// What `WilfSet::new` needs of the membership table `set`, the Apéry set `ap` and the
/// multiplicity `g1`.
pub open spec fn new_inputs_ok(set: Seq<u8>, ap: Seq<usize>, g1: usize) -> bool {
    let c = conductor_of(ap, g1);
    &&& ap.len() == g1
    &&& g1 >= 2
    &&& 2 * g1 <= usize::MAX
    &&& forall|r: int| 1 <= r < g1 ==> #[trigger] ap[r] > g1 && (ap[r] as int) % (g1 as int) == r
    &&& apery_sums_ok(ap, g1)
    &&& c <= set.len()
    &&& forall|x: int| 0 <= x < set.len() ==> #[trigger] set[x] <= 1
    &&& set.len() % (g1 as nat) == 0
    &&& 2 * seq_sum(ap) <= usize::MAX
    &&& c <= nonzero_count(flags_seq(ap, g1)) * count_ones(set, c as nat) <= usize::MAX
}

/// The fields of `w` are those derived from `set`, `ap` and `g1`.
pub open spec fn wilf_fields(w: WilfSet, set: Seq<u8>, ap: Seq<usize>, g1: usize) -> bool {
    let c = conductor_of(ap, g1);
    let n = count_ones(set, c as nat);
    &&& w.set@ == set
    &&& w.apery@ == ap
    &&& w.g1 == g1
    &&& w.max_a == seq_max(ap)
    &&& w.a1 == ap[1]
    &&& w.maxgap == seq_max(ap) - g1
    &&& w.c == c
    &&& w.count_set == n
    &&& w.count_gap == c - n
    &&& w.sum_a == seq_sum(ap)
    &&& w.double_avg_a == 2 * seq_sum(ap) / (g1 as nat)
    &&& w.gen_flags@ == flags_seq(ap, g1)
    &&& sorted_nonzero_of(w.gen_set@, flags_seq(ap, g1))
    &&& w.e == w.gen_set@.len()
    &&& w.defect == w.e * n - c
    &&& is_square(w.lambda_matrix@, g1 as nat)
    &&& forall|i: int, j: int|
        0 <= i < g1 && 0 <= j < g1 ==> #[trigger] w.lambda_matrix@[i]@[j] == if i >= 1 && j >= 1 {
            lambda_entry(ap, g1, i, j)
        } else {
            0
        }
}

proof fn lemma_nonzero_count_step(f: Seq<usize>, r: int)
    requires
        0 <= r < f.len(),
    ensures
        nonzero_count(f.take(r + 1)) == nonzero_count(f.take(r)) + if f[r] > 0 { 1nat } else { 0nat },
{
    assert(f.take(r + 1).drop_last() =~= f.take(r));
}

proof fn lemma_count_ones_bound(set: Seq<u8>, n: nat)
    ensures
        count_ones(set, n) <= n,
    decreases n,
{
    if n > 0 {
        lemma_count_ones_bound(set, (n - 1) as nat);
    }
}

proof fn lemma_seq_sum_step(s: Seq<usize>, j: int)
    requires
        0 <= j < s.len(),
    ensures
        seq_sum(s.take(j + 1)) == seq_sum(s.take(j)) + s[j],
        seq_max(s.take(j + 1)) == if s[j] as nat > seq_max(s.take(j)) { s[j] as nat } else { seq_max(s.take(j)) },
{
    assert(s.take(j + 1).drop_last() =~= s.take(j));
}

proof fn lemma_seq_sum_ge(s: Seq<usize>, j: int)
    requires
        0 <= j <= s.len(),
    ensures
        seq_sum(s.take(j)) <= seq_sum(s),
    decreases s.len() - j,
{
    if j < s.len() {
        lemma_seq_sum_ge(s, j + 1);
        lemma_seq_sum_step(s, j);
    } else {
        assert(s.take(j) =~= s);
    }
}

impl WilfSet {
    fn new(set: Vec<u8>, apery: Vec<usize>, g1: usize) -> (w: WilfSet)
        requires
            new_inputs_ok(set@, apery@, g1),
        ensures
            wilf_fields(w, set@, apery@, g1),
    {
        let ghost ap = apery@;
        // largest element and sum of the Apéry set
        let mut max_a: usize = 0;
        let mut sum: usize = 0;
        let mut k: usize = 0;
        assert(ap.take(0) =~= Seq::<usize>::empty());
        while k < apery.len()
            invariant
                ap == apery@,
                0 <= k <= ap.len(),
                max_a == seq_max(ap.take(k as int)),
                sum == seq_sum(ap.take(k as int)),
                2 * seq_sum(ap) <= usize::MAX,
            decreases ap.len() - k,
        {
            proof {
                lemma_seq_sum_step(ap, k as int);
                lemma_seq_sum_ge(ap, k + 1);
            }
            if apery[k] > max_a {
                max_a = apery[k];
            }
            sum = sum + apery[k];
            k = k + 1;
        }
        assert(ap.take(ap.len() as int) =~= ap);
        let a1: usize = apery[1];
        assert(ap[1] > g1);
        proof {
            crate::numsg::lemma_seq_max(ap);
        }
        let c = max_a - g1 + 1;
        // members and gaps below the conductor
        let mut count_set: usize = 0;
        let mut count_gap: usize = 0;
        let mut x: usize = 0;
        while x < c
            invariant
                c <= set@.len(),
                forall|y: int| 0 <= y < set@.len() ==> #[trigger] set@[y] <= 1,
                0 <= x <= c,
                count_set == count_ones(set@, x as nat),
                count_gap == x - count_ones(set@, x as nat),
            decreases c - x,
        {
            proof {
                lemma_count_ones_bound(set@, x as nat);
            }
            count_set = count_set + set[x] as usize;
            count_gap = count_gap + (1 - set[x]) as usize;
            x = x + 1;
        }
        let double_avg_a = 2 * sum / apery.len();
        // lambda matrix, zero where find_generator_flags does not write
        let mut tmp_lambda_matrix: Vec<Vec<usize>> = Vec::new();
        let mut row_i: usize = 0;
        while row_i < g1
            invariant
                0 <= row_i <= g1,
                tmp_lambda_matrix@.len() == row_i,
                forall|a: int| 0 <= a < row_i ==> (#[trigger] tmp_lambda_matrix@[a])@ == Seq::new(g1 as nat, |b: int| 0usize),
            decreases g1 - row_i,
        {
            let mut row: Vec<usize> = Vec::new();
            let mut col: usize = 0;
            while col < g1
                invariant
                    0 <= col <= g1,
                    row@ == Seq::new(col as nat, |b: int| 0usize),
                decreases g1 - col,
            {
                row.push(0);
                col = col + 1;
            }
            tmp_lambda_matrix.push(row);
            row_i = row_i + 1;
        }
        let gen_flags = find_generator_flags(&apery, g1, &mut tmp_lambda_matrix);
        let ghost flags = flags_seq(ap, g1);
        assert(gen_flags@ =~= flags);
        // minimal generators in increasing order
        let mut gen_set: Vec<usize> = Vec::new();
        let mut r: usize = 0;
        assert(flags.take(0) =~= Seq::<usize>::empty());
        while r < g1
            invariant
                gen_flags@ == flags,
                flags == flags_seq(ap, g1),
                ap == apery@,
                new_inputs_ok(set@, ap, g1),
                0 <= r <= g1,
                strictly_increasing(gen_set@),
                gen_set@.len() == nonzero_count(flags.take(r as int)),
                forall|v: usize| #[trigger] gen_set@.contains(v) <==> (v > 0 && flags.take(r as int).contains(v)),
            decreases g1 - r,
        {
            proof {
                lemma_nonzero_count_step(flags, r as int);
            }
            let v = gen_flags[r];
            if v > 0 {
                proof {
                    if gen_set@.contains(v) {
                        let t0 = flags.take(r as int);
                        let k2 = choose|k2: int| 0 <= k2 < r && #[trigger] t0[k2] == v;
                        assert(flags[k2] == v);
                        assert(flags[k2] == gen_flag(ap, g1, k2));
                        assert(flags[r as int] == gen_flag(ap, g1, r as int));
                        if k2 == 0 {
                            assert(v == g1);
                            assert(r >= 1);
                            assert((ap[r as int] as int) % (g1 as int) == r);
                            lemma_mod_self_0(g1 as int);
                        } else {
                            assert(v == ap[k2]);
                            assert(v == ap[r as int]);
                        }
                    }
                }
                insert_sorted(&mut gen_set, v);
            }
            proof {
                let t0 = flags.take(r as int);
                let t1 = flags.take(r + 1);
                assert forall|u: usize| #[trigger] gen_set@.contains(u) <==> (u > 0 && t1.contains(u)) by {
                    if t1.contains(u) {
                        let k2 = choose|k2: int| 0 <= k2 < r + 1 && #[trigger] t1[k2] == u;
                        if k2 < r {
                            assert(t0[k2] == u);
                        }
                    }
                    if t0.contains(u) {
                        let k2 = choose|k2: int| 0 <= k2 < r && #[trigger] t0[k2] == u;
                        assert(t1[k2] == u);
                    }
                    if u == v && v > 0 {
                        assert(t1[r as int] == u);
                    }
                }
            }
            r = r + 1;
        }
        assert(flags.take(g1 as int) =~= flags);
        let e = gen_set.len();
        proof {
            assert forall|u: usize| #[trigger] gen_set@.contains(u) <==> (u > 0 && flags.contains(u)) by {}
        }
        WilfSet {
            defect: e * count_set - c,
            set: set,
            apery: apery,
            max_a: max_a,
            sum_a: sum,
            double_avg_a: double_avg_a,
            g1: g1,
            maxgap: max_a - g1,
            count_set: count_set,
            count_gap: count_gap,
            gen_flags: gen_flags,
            e: e,
            gen_set: gen_set,
            c: c,
            lambda_matrix: tmp_lambda_matrix,
            a1: a1,
        }
    }
}

/// Largest element of a non-empty vector.
pub(crate) fn vec_max(v: &Vec<usize>) -> (mx: usize)
    requires
        v@.len() > 0,
    ensures
        mx == seq_max(v@),
{
    let mut mx: usize = 0;
    let mut k: usize = 0;
    assert(v@.take(0) =~= Seq::<usize>::empty());
    while k < v.len()
        invariant
            0 <= k <= v@.len(),
            mx == seq_max(v@.take(k as int)),
        decreases v@.len() - k,
    {
        assert(v@.take(k + 1).drop_last() =~= v@.take(k as int));
        if v[k] > mx {
            mx = v[k];
        }
        k = k + 1;
    }
    assert(v@.take(v@.len() as int) =~= v@);
    mx
}

/// Least element of a non-empty vector.
pub(crate) fn vec_min(v: &Vec<usize>) -> (mn: usize)
    requires
        v@.len() > 0,
    ensures
        mn == seq_min(v@),
{
    let mut mn: usize = v[0];
    let mut k: usize = 1;
    assert(v@.take(1).drop_last() =~= Seq::<usize>::empty());
    while k < v.len()
        invariant
            1 <= k <= v@.len(),
            mn == seq_min(v@.take(k as int)),
        decreases v@.len() - k,
    {
        assert(v@.take(k + 1).drop_last() =~= v@.take(k as int));
        if v[k] < mn {
            mn = v[k];
        }
        k = k + 1;
    }
    assert(v@.take(v@.len() as int) =~= v@);
    mn
}

/// The Apéry table found so far: `ap[r]` is 0 while no member congruent to `r` lies below
/// `i`, and then the least such member.
pub open spec fn apery_found(g: Seq<usize>, m: nat, ap: Seq<usize>, i: nat, j: nat) -> bool {
    &&& ap.len() == m
    &&& ap[0] == 0
    &&& forall|r: int|
        1 <= r < m ==> (if #[trigger] ap[r] == 0 {
            forall|y: nat| y < i && y % m == r ==> !#[trigger] in_sg(g, y)
        } else {
            is_apery(g, m, r as nat, ap[r] as nat) && ap[r] < j
        })
}

/// Sieve over `0..i`: members are marked, Apéry elements recorded, and the sieve stops
/// after the largest Apéry element.  Returns the table of `0..=max Apéry` and the Apéry set.
pub(crate) fn sieve(input: &Vec<usize>, m: usize, limit: usize) -> (res: (Vec<u8>, Vec<usize>))
    requires
        positive_gens(input@),
        is_min_of(input@, m as nat),
        m >= 2,
        m <= limit,
        residues_reached_below(input@, m as nat, limit as nat),
    ensures
        res.0@.len() == seq_max(apery_seq(input@, m as nat)) + 1,
        forall|x: int| 0 <= x < res.0@.len() ==> #[trigger] res.0@[x] == if in_sg(input@, x as nat) { 1u8 } else { 0u8 },
        res.1@ == apery_seq(input@, m as nat),
{
    let ghost g = input@;
    proof {
        lemma_all_apery(g, m as nat, limit as nat);
        lemma_frobenius(g, m as nat);
    }
    let ghost ma = seq_max(apery_seq(g, m as nat));
    let mut wilfset: Vec<u8> = vec![0u8; limit];
    let mut aperyset: Vec<usize> = vec![0usize; m];
    wilfset.set(0, 1);
    let mut i: usize = 1;
    let mut runlength: usize = 1;
    proof {
        assert forall|r: int| 1 <= r < m implies (if #[trigger] aperyset@[r] == 0 {
            forall|y: nat| y < i && y % (m as nat) == r ==> !#[trigger] in_sg(g, y)
        } else {
            is_apery(g, m as nat, r as nat, aperyset@[r] as nat) && aperyset@[r] < i
        }) by {
            assert forall|y: nat| y < i && y % (m as nat) == r implies !#[trigger] in_sg(g, y) by {
                lemma_small_mod(0, m as nat);
            }
        }
    }
    while i < limit && runlength < m
        invariant
            g == input@,
            positive_gens(g),
            is_min_of(g, m as nat),
            m >= 2,
            m <= limit,
            wilfset@.len() == limit,
            1 <= i <= limit,
            i <= ma + 1,
            ma == seq_max(apery_seq(g, m as nat)),
            !in_sg(g, (ma - m) as nat),
            forall|x: nat| x > ma - m ==> #[trigger] in_sg(g, x),
            forall|r: nat| r < m ==> is_apery(g, m as nat, r, #[trigger] apery(g, m as nat, r)) && apery(g, m as nat, r) < limit,
            forall|x: int| 0 <= x < i ==> #[trigger] wilfset@[x] == if in_sg(g, x as nat) { 1u8 } else { 0u8 },
            forall|x: int| i <= x < limit ==> #[trigger] wilfset@[x] == 0,
            apery_found(g, m as nat, aperyset@, i as nat, i as nat),
            runlength <= i,
            forall|x: nat| i - runlength <= x < i ==> #[trigger] in_sg(g, x),
            runlength == i || !in_sg(g, (i - runlength - 1) as nat),
        decreases limit - i,
    {
        let ghost rl0 = runlength;
        let mut t: usize = 0;
        while t < input.len()
            invariant
                g == input@,
                positive_gens(g),
                is_min_of(g, m as nat),
                m >= 2,
                wilfset@.len() == limit,
                1 <= i < limit,
                forall|x: int| 0 <= x < i ==> #[trigger] wilfset@[x] == if in_sg(g, x as nat) { 1u8 } else { 0u8 },
                forall|x: int| i < x < limit ==> #[trigger] wilfset@[x] == 0,
                0 <= t <= g.len(),
                wilfset@[i as int] == if step_in(g, i as nat, t as nat) { 1u8 } else { 0u8 },
                runlength == rl0 + if wilfset@[i as int] == 1 { 1nat } else { 0nat },
                rl0 <= i,
                apery_found(g, m as nat, aperyset@, i as nat, (i + 1) as nat),
                wilfset@[i as int] == 1 && (i as nat) % (m as nat) > 0 ==> aperyset@[((i as nat) % (m as nat)) as int] != 0,
            decreases g.len() - t,
        {
            let k = input[t];
            proof {
                assert(g[t as int] > 0);
                assert(step_in(g, i as nat, (t + 1) as nat) == ((0 < g[t as int] <= i && in_sg(g, (i - g[t as int]) as nat)) || step_in(g, i as nat, t as nat)));
            }
            if i >= k && 1 == wilfset[i - k] && 0 == wilfset[i] {
                wilfset.set(i, 1);
                runlength = runlength + 1;
                let residue = i % m;
                if residue > 0 {
                    if 0 == aperyset[residue] {
                        aperyset.set(residue, i);
                        proof {
                            lemma_step_in(g, i as nat, (t + 1) as nat);
                            lemma_member_unfold(g, i as nat);
                            assert(is_apery(g, m as nat, residue as nat, i as nat));
                        }
                    }
                }
            }
            t = t + 1;
        }
        proof {
            lemma_step_in(g, i as nat, g.len());
            lemma_member_unfold(g, i as nat);
            assert forall|r: int| 1 <= r < m implies (if #[trigger] aperyset@[r] == 0 {
                forall|y: nat| y < i + 1 && y % (m as nat) == r ==> !#[trigger] in_sg(g, y)
            } else {
                is_apery(g, m as nat, r as nat, aperyset@[r] as nat) && aperyset@[r] < i + 1
            }) by {
                if aperyset@[r] == 0 {
                    assert forall|y: nat| y < i + 1 && y % (m as nat) == r implies !#[trigger] in_sg(g, y) by {
                        if y < i {
                        }
                    }
                }
            }
        }
        if 0 == wilfset[i] {
            runlength = 0;
        }
        i = i + 1;
    }
    proof {
        lemma_seq_max(apery_seq(g, m as nat));
        let k = choose|k: int| 0 <= k < m && apery_seq(g, m as nat)[k] == ma;
        assert(apery_seq(g, m as nat)[k] == apery(g, m as nat, k as nat));
        if runlength >= m {
            if i <= ma {
                lemma_run_closure(g, m as nat, (i - m) as nat, (ma - m) as nat);
            }
        } else {
            assert(apery(g, m as nat, k as nat) < limit);
        }
        assert(i == ma + 1);
    }
    wilfset.truncate(i);
    proof {
        assert forall|r: int| 0 <= r < m implies #[trigger] aperyset@[r] == apery_seq(g, m as nat)[r] by {
            if r == 0 {
                lemma_apery_zero(g, m as nat);
                lemma_apery_is(g, m as nat, 0, 0);
            } else {
                let a = apery(g, m as nat, r as nat);
                assert(apery_seq(g, m as nat)[r] == a);
                assert(a <= ma);
                if aperyset@[r] == 0 {
                    assert(!in_sg(g, a));
                }
                lemma_apery_is(g, m as nat, r as nat, aperyset@[r] as nat);
            }
        }
        assert(aperyset@ =~= apery_seq(g, m as nat));
    }
    (wilfset, aperyset)
}

/// The numbers divided by their greatest common divisor.
pub open spec fn reduce(s: Seq<usize>) -> Seq<usize> {
    s.map_values(|x: usize| (x as nat / gcd_seq(s)) as usize)
}

/// What the sieve of `generatewilf` needs of its input: non-zero numbers whose reduced
/// form has least element at least 2 and leaves room for `max * max + min`.
pub open spec fn wilf_input_ok(s: Seq<usize>) -> bool {
    let g = reduce(s);
    let m = seq_min(g);
    let mx = seq_max(g);
    &&& s.len() > 0
    &&& all_positive(s)
    &&& m >= 2
    &&& mx * mx + m <= usize::MAX
}

/// What `generatewilf` needs of its input: non-zero numbers whose reduced form has least
/// element at least 2, leaves room for `max * max + min`, keeps twice the sum of its Apéry
/// set in range, and satisfies Wilf's inequality `c <= e * n` with `e * n` in range.
pub open spec fn generatewilf_ok(s: Seq<usize>) -> bool {
    let g = reduce(s);
    let m = seq_min(g);
    let ap = apery_seq(g, m);
    let c = seq_max(ap) - m + 1;
    &&& wilf_input_ok(s)
    &&& 2 * seq_sum(ap) <= usize::MAX
    &&& c <= nonzero_count(flags_seq(ap, m as usize)) * count_members(g, c as nat) <= usize::MAX
}

/// The reduced numbers of an input that `generatewilf` accepts reach every residue modulo
/// their least element below the sieve's bound `max * max + min`.
proof fn lemma_generatewilf_residues(s: Seq<usize>)
    requires
        wilf_input_ok(s),
    ensures
        residues_reached_below(reduce(s), seq_min(reduce(s)), seq_max(reduce(s)) * seq_max(reduce(s)) + seq_min(reduce(s))),
{
    let g = reduce(s);
    let m = seq_min(g);
    let mx = seq_max(g);
    lemma_reduce_positive(s);
    lemma_reduce_coprime(s);
    lemma_seq_min(g);
    lemma_seq_max(g);
    let k = choose|k: int| 0 <= k < g.len() && g[k] == m;
    assert(m <= mx);
    assert((m - 1) * mx + 1 <= mx * mx + m) by (nonlinear_arith)
        requires 1 <= m <= mx;
    lemma_residues_below(g, m, mx, mx * mx + m);
}

proof fn lemma_elem_le_sum(s: Seq<usize>, k: int)
    requires
        0 <= k < s.len(),
    ensures
        s[k] <= seq_sum(s),
    decreases s.len(),
{
    if k < s.len() - 1 {
        lemma_elem_le_sum(s.drop_last(), k);
    }
}

proof fn lemma_apery_pair(g: Seq<usize>, m: nat, bound: nat, i: int, j: int)
    requires
        is_min_of(g, m),
        m >= 2,
        bound <= usize::MAX + 1,
        forall|r: nat| r < m ==> is_apery(g, m, r, #[trigger] apery(g, m, r)) && apery(g, m, r) < bound,
        2 * seq_sum(apery_seq(g, m)) <= usize::MAX,
        1 <= i < m,
        1 <= j < m,
    ensures
        ({
            let ap = apery_seq(g, m);
            &&& ap[i] + ap[j] <= usize::MAX
            &&& ap[i] + ap[j] >= ap[(i + j) % (m as int)]
            &&& (ap[i] + ap[j] - ap[(i + j) % (m as int)]) % (m as int) == 0
        }),
{
    let ap = apery_seq(g, m);
    lemma_elem_le_sum(ap, i);
    lemma_elem_le_sum(ap, j);
    let k = (i + j) % (m as int);
    lemma_mod_bound(i + j, m as int);
    let ai = apery(g, m, i as nat);
    let aj = apery(g, m, j as nat);
    let ak = apery(g, m, k as nat);
    assert(ap[i] == ai && ap[j] == aj && ap[k] == ak);
    lemma_add_members(g, ai, aj);
    assert((ai + aj) % m == k) by {
        lemma_add_mod_noop(ai as int, aj as int, m as int);
    }
    if ai + aj < ak {
        assert(!in_sg(g, ai + aj));
    }
    assert((ai + aj - ak) % (m as int) == 0) by {
        lemma_sub_mod_noop((ai + aj) as int, ak as int, m as int);
        lemma_mod_self_0(m as int);
        lemma_small_mod(0, m);
    }
}

/// The conditions of `apery_sums_ok` at one pair of indices.
pub open spec fn pair_ok(ap: Seq<usize>, m: usize, i: int, j: int) -> bool {
    &&& ap[i] + ap[j] <= usize::MAX
    &&& ap[i] + ap[j] >= ap[(i + j) % (ap.len() as int)]
    &&& (ap[i] + ap[j] - ap[(i + j) % (ap.len() as int)]) % (m as int) == 0
}

proof fn lemma_sums_from_pairs(ap: Seq<usize>, m: usize)
    requires
        ap.len() == m,
        forall|i: int, j: int| 1 <= i < m && 1 <= j < m ==> #[trigger] pair_ok(ap, m, i, j),
    ensures
        apery_sums_ok(ap, m),
{
    reveal(apery_sums_ok);
    assert forall|i: int, j: int| 1 <= i < ap.len() && 1 <= j < ap.len() implies {
        &&& #[trigger] ap[i] + #[trigger] ap[j] <= usize::MAX
        &&& ap[i] + ap[j] >= ap[(i + j) % (ap.len() as int)]
        &&& (ap[i] + ap[j] - ap[(i + j) % (ap.len() as int)]) % (m as int) == 0
    } by {
        assert(pair_ok(ap, m, i, j));
    }
}

/// Dividing positive numbers by their gcd leaves positive numbers.
pub proof fn lemma_reduce_positive(s: Seq<usize>)
    requires
        s.len() > 0,
        all_positive(s),
    ensures
        positive_gens(reduce(s)),
        reduce(s).len() == s.len(),
{
    lemma_gcd_seq_properties(s);
    let d = gcd_seq(s);
    let g = reduce(s);
    assert forall|i: int| 0 <= i < g.len() implies #[trigger] g[i] > 0 by {
        assert(s[i] > 0);
        assert(divides(d, s[i] as nat));
        lemma_fundamental_div_mod(s[i] as int, d as int);
        assert(g[i] == ((s[i] as nat) / d) as usize);
        if (s[i] as nat) / d == 0 {
            assert(s[i] == 0);
        }
        lemma_div_pos_is_pos(s[i] as int, d as int);
    }
}

/// The Apéry set of a semigroup meets what `find_generator_flags` needs.
proof fn lemma_apery_sums(g: Seq<usize>, m: nat, bound: nat)
    requires
        is_min_of(g, m),
        m >= 2,
        bound <= usize::MAX + 1,
        forall|r: nat| r < m ==> is_apery(g, m, r, #[trigger] apery(g, m, r)) && apery(g, m, r) < bound,
        2 * seq_sum(apery_seq(g, m)) <= usize::MAX,
    ensures
        apery_sums_ok(apery_seq(g, m), m as usize),
{
    let ap = apery_seq(g, m);
    assert forall|i: int, j: int| 1 <= i < m && 1 <= j < m implies #[trigger] pair_ok(ap, m as usize, i, j) by {
        lemma_apery_pair(g, m, bound, i, j);
    }
    lemma_sums_from_pairs(ap, m as usize);
}

proof fn lemma_count_ones_members(set: Seq<u8>, g: Seq<usize>, n: nat)
    requires
        n <= set.len(),
        forall|x: int| 0 <= x < set.len() ==> #[trigger] set[x] == if in_sg(g, x as nat) { 1u8 } else { 0u8 },
    ensures
        count_ones(set, n) == count_members(g, n),
    decreases n,
{
    if n > 0 {
        lemma_count_ones_members(set, g, (n - 1) as nat);
        assert(set[n - 1] == if in_sg(g, (n - 1) as nat) { 1u8 } else { 0u8 });
    }
}

/// What `generatewilf` gives for `s`: the membership table of the semigroup of the reduced
/// numbers up to the multiple of `m` past the largest Apéry element, its Apéry set, the
/// members below the conductor, the minimal generators, and the fields derived from them.
pub open spec fn generatewilf_post(s: Seq<usize>, w: WilfSet) -> bool {
    let g = reduce(s);
    let m = seq_min(g);
    let ap = apery_seq(g, m);
    let top = seq_max(ap) + 1;
    &&& wilf_fields(w, w.set@, ap, m as usize)
    &&& w.set@.len() == top + m - top % m
    &&& forall|x: int| 0 <= x < w.set@.len() ==> #[trigger] w.set@[x] == if in_sg(g, x as nat) { 1u8 } else { 0u8 }
    &&& w.count_set == count_members(g, w.c as nat)
    &&& lists_min_gens(g, w.gen_set@)
}

/// The membership table of the semigroup of the reduced input `s`, padded with members to
/// a multiple of `m`, with its Apéry set modulo `m`, the least reduced number.
pub open spec fn wilf_table_post(s: Seq<usize>, set: Seq<u8>, ap: Seq<usize>, m: usize) -> bool {
    let g = reduce(s);
    let top = seq_max(ap) + 1;
    &&& m == seq_min(g)
    &&& ap == apery_seq(g, m as nat)
    &&& set.len() == top + m - top % (m as nat)
    &&& set.len() % (m as nat) == 0
    &&& forall|x: int| 0 <= x < set.len() ==> #[trigger] set[x] == if in_sg(g, x as nat) { 1u8 } else { 0u8 }
    &&& forall|r: int| 1 <= r < m ==> #[trigger] ap[r] > m && (ap[r] as int) % (m as int) == r
    &&& forall|r: nat| r < m ==> is_apery(g, m as nat, r, #[trigger] apery(g, m as nat, r))
        && apery(g, m as nat, r) < seq_max(g) * seq_max(g) + m
}

/// The sieve of `generatewilf`: the table and the Apéry set of the reduced input.
fn wilf_table(inputnumbers: &[usize]) -> (res: (Vec<u8>, Vec<usize>, usize))
    requires
        wilf_input_ok(inputnumbers@),
    ensures
        wilf_table_post(inputnumbers@, res.0@, res.1@, res.2),
{
    let ghost s = inputnumbers@;
    let d = gcd_vec(inputnumbers);
    proof {
        lemma_gcd_seq_properties(s);
    }
    let mut input: Vec<usize> = Vec::new();
    let mut k: usize = 0;
    while k < inputnumbers.len()
        invariant
            s == inputnumbers@,
            d == gcd_seq(s),
            d > 0,
            0 <= k <= s.len(),
            input@ =~= reduce(s).take(k as int),
        decreases s.len() - k,
    {
        input.push(inputnumbers[k] / d);
        k = k + 1;
    }
    let ghost g = reduce(s);
    assert(input@ =~= g);
    proof {
        assert forall|i: int| 0 <= i < g.len() implies #[trigger] g[i] > 0 by {
            assert(divides(d as nat, s[i] as nat));
            assert(s[i] > 0);
            lemma_fundamental_div_mod(s[i] as int, d as int);
            if (s[i] as nat) / (d as nat) == 0 {
                assert(s[i] == 0);
            }
        }
        lemma_seq_min(g);
        lemma_seq_max(g);
    }
    let maximal_input = vec_max(&input);
    let minimal_input = vec_min(&input);
    let limit = maximal_input * maximal_input + minimal_input;
    proof {
        lemma_generatewilf_residues(s);
    }
    let (mut result, aperyset) = sieve(&input, minimal_input, limit);
    let ghost ap = apery_seq(g, minimal_input as nat);
    let ghost top = result@.len();
    proof {
        lemma_all_apery(g, minimal_input as nat, limit as nat);
        lemma_frobenius(g, minimal_input as nat);
    }
    let missing = minimal_input - result.len() % minimal_input;
    let mut t: usize = 0;
    while t < missing
        invariant
            0 <= t <= missing,
            missing == minimal_input - top % (minimal_input as nat),
            result@.len() == top + t,
            top == seq_max(ap) + 1,
            forall|x: int| 0 <= x < top ==> #[trigger] result@[x] == if in_sg(g, x as nat) { 1u8 } else { 0u8 },
            forall|x: int| top <= x < top + t ==> #[trigger] result@[x] == 1u8,
        decreases missing - t,
    {
        result.push(1);
        t = t + 1;
    }
    proof {
        let m = minimal_input as nat;
        assert forall|x: int| 0 <= x < result@.len() implies #[trigger] result@[x] == if in_sg(g, x as nat) { 1u8 } else { 0u8 } by {
            if x >= top {
                assert(in_sg(g, x as nat));
            }
        }
        assert(result@.len() % m == 0) by {
            lemma_fundamental_div_mod(top as int, m as int);
            lemma_mod_multiples_basic((top / m + 1) as int, m as int);
            let q = top / m;
            let r = top % m;
            assert(top + (m - r) == (q + 1) * m) by (nonlinear_arith)
                requires top == m * q + r;
        }
        assert forall|r: int| 1 <= r < m implies #[trigger] ap[r] > m && (ap[r] as int) % (m as int) == r by {
            assert(ap[r] == apery(g, m, r as nat));
            lemma_apery_above_min(g, m, r as nat, apery(g, m, r as nat));
        }
    }
    (result, aperyset, minimal_input)
}

/// The data of `generatewilf` from the table and Apéry set of the reduced input.
fn wilf_finish(inputnumbers: &[usize], result: Vec<u8>, aperyset: Vec<usize>, minimal_input: usize) -> (w: WilfSet)
    requires
        generatewilf_ok(inputnumbers@),
        wilf_table_post(inputnumbers@, result@, aperyset@, minimal_input),
    ensures
        generatewilf_post(inputnumbers@, w),
{
    let ghost s = inputnumbers@;
    let ghost g = reduce(s);
    let ghost ap = aperyset@;
    let ghost limit = seq_max(g) * seq_max(g) + minimal_input;
    proof {
        let m = minimal_input as nat;
        lemma_reduce_positive(s);
        lemma_seq_min(g);
        lemma_apery_sums(g, m, limit as nat);
        lemma_count_ones_members(result@, g, (seq_max(ap) - m + 1) as nat);
        lemma_flags_are_min_gens(g, m, limit as nat);
    }
    let w = WilfSet::new(result, aperyset, minimal_input);
    assert(lists_min_gens(g, w.gen_set@));
    w
}

/// The semigroup generated by the numbers, after dividing them by their greatest common
/// divisor, with its Apéry set modulo the least of them, its membership table up to past
/// the largest Apéry element, and the quantities derived from them.
pub fn generatewilf(inputnumbers: &[usize]) -> (w: WilfSet)
    requires
        generatewilf_ok(inputnumbers@),
    ensures
        generatewilf_post(inputnumbers@, w),
{
    let (result, aperyset, minimal_input) = wilf_table(inputnumbers);
    wilf_finish(inputnumbers, result, aperyset, minimal_input)
}

/// A square matrix of zeros with `n` rows.
fn zero_square(n: usize) -> (mat: Vec<Vec<usize>>)
    ensures
        is_square(mat@, n as nat),
{
    let mut mat: Vec<Vec<usize>> = Vec::new();
    let mut i: usize = 0;
    while i < n
        invariant
            0 <= i <= n,
            mat@.len() == i,
            forall|a: int| 0 <= a < i ==> (#[trigger] mat@[a])@.len() == n,
        decreases n - i,
    {
        let mut row: Vec<usize> = Vec::new();
        let mut j: usize = 0;
        while j < n
            invariant
                0 <= j <= n,
                row@.len() == j,
            decreases n - j,
        {
            row.push(0);
            j = j + 1;
        }
        mat.push(row);
        i = i + 1;
    }
    mat
}

/// `generatewilf` on the inputs that it accepts, and `None` on the others: an empty input,
/// a zero, a reduced least number below 2, no room for `max * max + min`, twice the sum of
/// the Apéry set out of range, or Wilf's inequality `c <= e * n` failing or out of range.
pub fn try_generatewilf(inputnumbers: &[usize]) -> (res: Option<WilfSet>)
    ensures
        res is Some <==> generatewilf_ok(inputnumbers@),
        res matches Some(w) ==> generatewilf_post(inputnumbers@, w),
{
    let ghost s = inputnumbers@;
    if inputnumbers.len() == 0 {
        return None;
    }
    let mut k: usize = 0;
    while k < inputnumbers.len()
        invariant
            s == inputnumbers@,
            0 <= k <= s.len(),
            forall|i: int| 0 <= i < k ==> #[trigger] s[i] > 0,
        decreases s.len() - k,
    {
        if inputnumbers[k] == 0 {
            assert(!all_positive(s));
            return None;
        }
        k = k + 1;
    }
    assert(all_positive(s));
    let d = gcd_vec(inputnumbers);
    proof {
        lemma_gcd_seq_properties(s);
        lemma_reduce_positive(s);
    }
    let mut input: Vec<usize> = Vec::new();
    let mut k: usize = 0;
    while k < inputnumbers.len()
        invariant
            s == inputnumbers@,
            d == gcd_seq(s),
            d > 0,
            0 <= k <= s.len(),
            input@ =~= reduce(s).take(k as int),
        decreases s.len() - k,
    {
        input.push(inputnumbers[k] / d);
        k = k + 1;
    }
    let ghost g = reduce(s);
    assert(input@ =~= g);
    let mx = vec_max(&input);
    let m = vec_min(&input);
    if m < 2 {
        return None;
    }
    let sq = match mx.checked_mul(mx) {
        Some(v) => v,
        None => return None,
    };
    let limit = match sq.checked_add(m) {
        Some(v) => v,
        None => return None,
    };
    assert(wilf_input_ok(s));
    let (result, aperyset, m2) = wilf_table(inputnumbers);
    let ghost ap = aperyset@;
    let total = match checked_total(&aperyset) {
        Some(t) => t,
        None => return None,
    };
    if total > usize::MAX / 2 {
        return None;
    }
    proof {
        lemma_seq_min(g);
        lemma_seq_max(g);
        let km = choose|k: int| 0 <= k < g.len() && g[k] == m;
        assert(m <= mx);
        assert(2 * m <= mx * mx + m) by (nonlinear_arith) requires 2 <= m <= mx;
        lemma_apery_sums(g, m as nat, limit as nat);
        lemma_seq_max(ap);
        assert(ap[1] > m);
    }
    let max_a = vec_max(&aperyset);
    let c = max_a - m + 1;
    let mut mat = zero_square(m);
    let flags = find_generator_flags(&aperyset, m, &mut mat);
    let ghost fl = flags_seq(ap, m);
    assert(flags@ =~= fl);
    let mut e: usize = 0;
    let mut r: usize = 0;
    assert(fl.take(0) =~= Seq::<usize>::empty());
    while r < m
        invariant
            flags@ == fl,
            fl.len() == m,
            0 <= r <= m,
            e <= r,
            e == nonzero_count(fl.take(r as int)),
        decreases m - r,
    {
        proof {
            lemma_nonzero_count_step(fl, r as int);
        }
        if flags[r] > 0 {
            e = e + 1;
        }
        r = r + 1;
    }
    assert(fl.take(m as int) =~= fl);
    let ghost set = result@;
    let mut n: usize = 0;
    let mut x: usize = 0;
    while x < c
        invariant
            set == result@,
            c <= set.len(),
            forall|y: int| 0 <= y < set.len() ==> #[trigger] set[y] <= 1,
            0 <= x <= c,
            n == count_ones(set, x as nat),
        decreases c - x,
    {
        proof {
            lemma_count_ones_bound(set, x as nat);
        }
        if result[x] == 1 {
            n = n + 1;
        }
        x = x + 1;
    }
    proof {
        lemma_count_ones_members(set, g, c as nat);
    }
    let en = match e.checked_mul(n) {
        Some(v) => v,
        None => return None,
    };
    if c > en {
        return None;
    }
    Some(wilf_finish(inputnumbers, result, aperyset, m2))
}

/// `s` lists the minimal generators in increasing order.
pub open spec fn lists_min_gens(g: Seq<usize>, s: Seq<usize>) -> bool {
    &&& strictly_increasing(s)
    &&& forall|x: usize| #[trigger] s.contains(x) <==> is_min_gen(g, x as nat)
}

/// The Apéry elements of a semigroup, all present.
pub open spec fn all_apery_below(g: Seq<usize>, m: nat, bound: nat) -> bool {
    forall|r: nat| r < m ==> is_apery(g, m, r, #[trigger] apery(g, m, r)) && apery(g, m, r) < bound
}

proof fn lemma_sum_mod(a: nat, b: nat, m: nat)
    requires
        m > 0,
    ensures
        (a + b) % m == ((a % m) + (b % m)) % m,
        a >= b ==> ((a - b) as nat) % m == (((a % m) - (b % m)) as int) % (m as int),
{
    lemma_add_mod_noop(a as int, b as int, m as int);
    lemma_sub_mod_noop(a as int, b as int, m as int);
}

/// A non-zero generator flag is a minimal generator.
proof fn lemma_flag_is_min_gen(g: Seq<usize>, m: nat, bound: nat, r: int)
    requires
        is_min_of(g, m),
        m >= 2,
        bound <= usize::MAX + 1,
        all_apery_below(g, m, bound),
        0 <= r < m,
        gen_flag(apery_seq(g, m), m as usize, r) > 0,
    ensures
        is_min_gen(g, gen_flag(apery_seq(g, m), m as usize, r) as nat),
{
    let ap = apery_seq(g, m);
    let i0 = choose|i: int| 0 <= i < g.len() && g[i] == m;
    if r == 0 {
        lemma_add_gen(g, 0, i0);
        assert forall|y: nat| 0 < y < m && #[trigger] in_sg(g, y) implies !in_sg(g, (m - y) as nat) by {
            lemma_positive_member_ge_min(g, m, y);
        }
    } else {
        let a = apery(g, m, r as nat);
        assert(ap[r] == a);
        assert(is_apery(g, m, r as nat, a));
        assert forall|y: nat| 0 < y < a && #[trigger] in_sg(g, y) implies !in_sg(g, (a - y) as nat) by {
            let z = (a - y) as nat;
            if in_sg(g, z) {
                let i = y % m;
                let j = z % m;
                lemma_mod_bound(y as int, m as int);
                lemma_mod_bound(z as int, m as int);
                lemma_sum_mod(y, z, m);
                assert(y + z == a);
                if i == 0 {
                    lemma_positive_member_ge_min(g, m, y);
                    assert(((y - m) as nat) % m == 0) by { lemma_mod_sub_multiples_vanish(y as int, m as int); }
                    lemma_multiple_member(g, m, (y - m) as nat);
                    lemma_add_members(g, z, (y - m) as nat);
                    assert(((a - m) as nat) % m == r) by { lemma_mod_sub_multiples_vanish(a as int, m as int); }
                    assert(!in_sg(g, (a - m) as nat));
                    assert(z + (y - m) == a - m);
                } else if j == 0 {
                    lemma_positive_member_ge_min(g, m, z);
                    assert(((z - m) as nat) % m == 0) by { lemma_mod_sub_multiples_vanish(z as int, m as int); }
                    lemma_multiple_member(g, m, (z - m) as nat);
                    lemma_add_members(g, y, (z - m) as nat);
                    assert(((a - m) as nat) % m == r) by { lemma_mod_sub_multiples_vanish(a as int, m as int); }
                    assert(!in_sg(g, (a - m) as nat));
                    assert(y + (z - m) == a - m);
                } else {
                    let ai = apery(g, m, i);
                    let aj = apery(g, m, j);
                    assert(is_apery(g, m, i, ai));
                    assert(is_apery(g, m, j, aj));
                    assert(ai <= y);
                    assert(aj <= z);
                    lemma_add_members(g, ai, aj);
                    lemma_sum_mod(ai, aj, m);
                    assert((ai + aj) % m == r);
                    assert(ai + aj >= a);
                    assert(ap[i as int] == ai && ap[j as int] == aj);
                    assert(is_pair_sum(ap, r, i as int, j as int));
                }
            }
        }
    }
}

/// A minimal generator is a non-zero generator flag.
pub proof fn lemma_min_gen_is_flag(g: Seq<usize>, m: nat, bound: nat, x: nat)
    requires
        is_min_of(g, m),
        m >= 2,
        bound <= usize::MAX + 1,
        all_apery_below(g, m, bound),
        is_min_gen(g, x),
    ensures
        gen_flag(apery_seq(g, m), m as usize, (x % m) as int) == x,
{
    let ap = apery_seq(g, m);
    let r = x % m;
    lemma_mod_bound(x as int, m as int);
    let i0 = choose|i: int| 0 <= i < g.len() && g[i] == m;
    lemma_add_gen(g, 0, i0);
    lemma_positive_member_ge_min(g, m, x);
    if r == 0 {
        if x > m {
            assert(((x - m) as nat) % m == 0) by { lemma_mod_sub_multiples_vanish(x as int, m as int); }
            lemma_multiple_member(g, m, (x - m) as nat);
            assert(!in_sg(g, (x - m) as nat));
        }
    } else {
        let a = apery(g, m, r);
        assert(ap[r as int] == a);
        assert(is_apery(g, m, r, a));
        assert(x >= a);
        if x > a {
            assert(((x - a) as nat) % m == 0) by { lemma_sum_mod(x, a, m); lemma_small_mod(0, m); }
            lemma_multiple_member(g, m, (x - a) as nat);
            lemma_apery_above_min(g, m, r, a);
            assert(!in_sg(g, (x - a) as nat));
        }
        if is_sum_of_two(ap, r as int) {
            let (i, j) = choose|i: int, j: int| #[trigger] is_pair_sum(ap, r as int, i, j);
            let ai = apery(g, m, i as nat);
            let aj = apery(g, m, j as nat);
            assert(ap[i] == ai && ap[j] == aj);
            lemma_apery_above_min(g, m, j as nat, aj);
            lemma_apery_above_min(g, m, i as nat, ai);
            assert(is_apery(g, m, i as nat, ai));
            assert(is_apery(g, m, j as nat, aj));
            assert(ai + aj == a);
            assert(x == a);
            assert(0 < ai < x && in_sg(g, ai));
            assert(in_sg(g, (x - ai) as nat)) by {
                assert((x - ai) as nat == aj);
            }
            assert(false);
        }
    }
}

/// The non-zero generator flags of a semigroup are exactly its minimal generators.
pub proof fn lemma_flags_are_min_gens(g: Seq<usize>, m: nat, bound: nat)
    requires
        is_min_of(g, m),
        m >= 2,
        bound <= usize::MAX + 1,
        all_apery_below(g, m, bound),
    ensures
        forall|x: usize| (x > 0 && flags_seq(apery_seq(g, m), m as usize).contains(x)) <==> #[trigger] is_min_gen(g, x as nat),
{
    let f = flags_seq(apery_seq(g, m), m as usize);
    assert forall|x: usize| (x > 0 && f.contains(x)) <==> #[trigger] is_min_gen(g, x as nat) by {
        if x > 0 && f.contains(x) {
            let r = choose|r: int| 0 <= r < f.len() && f[r] == x;
            lemma_flag_is_min_gen(g, m, bound, r);
        }
        if is_min_gen(g, x as nat) {
            lemma_min_gen_is_flag(g, m, bound, x as nat);
            lemma_mod_bound(x as int, m as int);
            assert(f[(x as nat % m) as int] == x);
        }
    }
}

/// `x` is a member according to a table: `set[x] == 1` below `c`, everything from `c` on.
pub open spec fn table_member(set: Seq<u8>, c: nat, x: nat) -> bool {
    x >= c || (x < set.len() && set[x as int] == 1)
}

/// `a` is the least member of the table congruent to `r` modulo `s`.
pub open spec fn is_least_in_class(set: Seq<u8>, c: nat, s: nat, r: nat, a: nat) -> bool {
    &&& table_member(set, c, a)
    &&& a % s == r
    &&& forall|y: nat| y < a && y % s == r ==> !#[trigger] table_member(set, c, y)
}

/// The table of `w` reaches the conductor and has 0 as a member.
pub open spec fn table_base_ok(w: WilfSet) -> bool {
    &&& w.c <= w.set@.len()
    &&& w.set@.len() > 0
    &&& w.set@[0] == 1
}

/// The members of the table of `w` are closed under addition.
#[verifier::opaque]
pub open spec fn table_closed(w: WilfSet) -> bool {
    forall|x: nat, y: nat|
        #[trigger] table_member(w.set@, w.c as nat, x) && #[trigger] table_member(w.set@, w.c as nat, y)
            ==> table_member(w.set@, w.c as nat, x + y)
}

/// The table of `w` describes a numerical semigroup: 0 is a member, members are closed
/// under addition, and the table reaches the conductor.
pub open spec fn table_ok(w: WilfSet) -> bool {
    &&& table_base_ok(w)
    &&& table_closed(w)
}

proof fn lemma_table_closed_at(w: WilfSet, x: nat, y: nat)
    requires
        table_closed(w),
        table_member(w.set@, w.c as nat, x),
        table_member(w.set@, w.c as nat, y),
    ensures
        table_member(w.set@, w.c as nat, x + y),
{
    reveal(table_closed);
}

/// A table computed by `generatewilf` describes its semigroup.
pub proof fn lemma_generatewilf_table(s: Seq<usize>, w: WilfSet)
    requires
        generatewilf_ok(s),
        generatewilf_post(s, w),
    ensures
        table_ok(w),
        forall|x: nat| #[trigger] table_member(w.set@, w.c as nat, x) == in_sg(reduce(s), x),
{
    let g = reduce(s);
    let m = seq_min(g);
    let mx = seq_max(g);
    lemma_reduce_positive(s);
    lemma_seq_min(g);
    lemma_generatewilf_residues(s);
    lemma_all_apery(g, m, mx * mx + m);
    lemma_frobenius(g, m);
    assert forall|x: nat| #[trigger] table_member(w.set@, w.c as nat, x) == in_sg(g, x) by {
        if x < w.c {
            assert(w.set@[x as int] == if in_sg(g, x) { 1u8 } else { 0u8 });
        }
    }
    assert(w.set@[0] == 1);
    reveal(table_closed);
    assert forall|x: nat, y: nat|
        #[trigger] table_member(w.set@, w.c as nat, x) && #[trigger] table_member(w.set@, w.c as nat, y)
            implies table_member(w.set@, w.c as nat, x + y) by {
        lemma_add_members(g, x, y);
    }
}

/// Selmer's formula on a result of `generatewilf`: `g1` times the number of gaps plus
/// `(g1 - 1) g1 / 2` is the sum of the Apéry set, so `count_gap` is `selmer_gaps`.
pub proof fn lemma_generatewilf_selmer(s: Seq<usize>, w: WilfSet)
    requires
        generatewilf_ok(s),
        generatewilf_post(s, w),
    ensures
        w.g1 * w.count_gap + ((w.g1 - 1) * w.g1) / 2 == w.sum_a,
        w.count_gap == selmer_gaps(w.apery@, w.g1),
{
    let g = reduce(s);
    let m = seq_min(g);
    let mx = seq_max(g);
    lemma_reduce_positive(s);
    lemma_seq_min(g);
    lemma_generatewilf_residues(s);
    lemma_all_apery(g, m, mx * mx + m);
    lemma_selmer(g, m);
}

/// Multiplying the numbers by `k` leaves their reduced form unchanged.
pub proof fn lemma_reduce_scaled(s: Seq<usize>, k: nat)
    requires
        s.len() > 0,
        all_positive(s),
        k > 0,
        forall|i: int| 0 <= i < s.len() ==> k * #[trigger] s[i] <= usize::MAX,
    ensures
        reduce(scaled(s, k)) == reduce(s),
{
    let t = scaled(s, k);
    lemma_gcd_seq_scaled(s, k);
    lemma_gcd_seq_properties(s);
    let d = gcd_seq(s);
    assert forall|i: int| 0 <= i < s.len() implies #[trigger] reduce(t)[i] == reduce(s)[i] by {
        assert(t[i] == k * s[i]);
        assert(divides(d, s[i] as nat));
        lemma_fundamental_div_mod(s[i] as int, d as int);
        let q = (s[i] as nat) / d;
        assert(t[i] == q * (k * d)) by (nonlinear_arith)
            requires t[i] == k * s[i], s[i] == d * q + 0;
        assert(k * d > 0) by (nonlinear_arith) requires k > 0, d > 0;
        lemma_div_by_multiple(q as int, (k * d) as int);
    }
    assert(reduce(t) =~= reduce(s));
}

/// Inputs with the same numbers have reduced forms with the same numbers.
pub proof fn lemma_reduce_same_elements(a: Seq<usize>, b: Seq<usize>)
    requires
        a.len() > 0,
        b.len() > 0,
        all_positive(a),
        all_positive(b),
        same_elements(a, b),
    ensures
        same_elements(reduce(a), reduce(b)),
{
    lemma_gcd_seq_same_elements(a, b);
    let ra = reduce(a);
    let rb = reduce(b);
    assert forall|i: int| 0 <= i < ra.len() implies #[trigger] rb.contains(ra[i]) by {
        assert(b.contains(a[i]));
        let j = choose|j: int| 0 <= j < b.len() && b[j] == a[i];
        assert(rb[j] == ra[i]);
    }
    assert forall|i: int| 0 <= i < rb.len() implies #[trigger] ra.contains(rb[i]) by {
        assert(a.contains(b[i]));
        let j = choose|j: int| 0 <= j < a.len() && a[j] == b[i];
        assert(ra[j] == rb[i]);
    }
}

/// `generatewilf` depends on the semigroup only: inputs whose reduced forms hold the same
/// numbers (in another order, repeated, or all multiplied by one factor) give the same
/// table, Apéry set, conductor, counts, minimal generators and lambda entries.
pub proof fn lemma_generatewilf_same_semigroup(s1: Seq<usize>, s2: Seq<usize>, w1: WilfSet, w2: WilfSet)
    requires
        generatewilf_ok(s1),
        generatewilf_ok(s2),
        generatewilf_post(s1, w1),
        generatewilf_post(s2, w2),
        same_elements(reduce(s1), reduce(s2)),
    ensures
        w1.set@ == w2.set@,
        w1.apery@ == w2.apery@,
        w1.g1 == w2.g1,
        w1.max_a == w2.max_a,
        w1.sum_a == w2.sum_a,
        w1.double_avg_a == w2.double_avg_a,
        w1.maxgap == w2.maxgap,
        w1.c == w2.c,
        w1.count_set == w2.count_set,
        w1.count_gap == w2.count_gap,
        w1.gen_flags@ == w2.gen_flags@,
        w1.gen_set@ == w2.gen_set@,
        w1.e == w2.e,
        w1.defect == w2.defect,
        w1.a1 == w2.a1,
        forall|i: int, j: int| 0 <= i < w1.g1 && 0 <= j < w1.g1 ==> #[trigger] w1.lambda_matrix@[i]@[j] == w2.lambda_matrix@[i]@[j],
{
    let g1 = reduce(s1);
    let g2 = reduce(s2);
    assert forall|x: nat| #[trigger] in_sg(g1, x) == in_sg(g2, x) by {
        lemma_in_sg_same_elements(g1, g2, x);
    }
    lemma_reduce_positive(s1);
    lemma_reduce_positive(s2);
    lemma_seq_min(g1);
    lemma_seq_min(g2);
    let m = seq_min(g1);
    assert(seq_min(g2) == m) by {
        let i1 = choose|i: int| 0 <= i < g1.len() && g1[i] == seq_min(g1);
        let i2 = choose|i: int| 0 <= i < g2.len() && g2[i] == seq_min(g2);
        assert(g2.contains(g1[i1]));
        assert(g1.contains(g2[i2]));
    }
    lemma_generatewilf_residues(s1);
    lemma_generatewilf_residues(s2);
    lemma_all_apery(g1, m, seq_max(g1) * seq_max(g1) + m);
    lemma_all_apery(g2, m, seq_max(g2) * seq_max(g2) + m);
    assert forall|r: nat| r < m implies apery(g1, m, r) == #[trigger] apery(g2, m, r) by {
        let a = apery(g1, m, r);
        assert(is_apery(g1, m, r, a));
        assert(is_apery(g2, m, r, a)) by {
            assert(in_sg(g1, a) == in_sg(g2, a));
            assert forall|y: nat| y < a && y % m == r implies !#[trigger] in_sg(g2, y) by {
                assert(in_sg(g1, y) == in_sg(g2, y));
            }
        }
        lemma_apery_is(g2, m, r, a);
    }
    let ap = apery_seq(g1, m);
    assert(apery_seq(g2, m) =~= ap);
    assert(w1.set@ =~= w2.set@) by {
        assert forall|x: int| 0 <= x < w1.set@.len() implies #[trigger] w1.set@[x] == w2.set@[x] by {
            assert(in_sg(g1, x as nat) == in_sg(g2, x as nat));
        }
    }
    lemma_strictly_increasing_unique(w1.gen_set@, w2.gen_set@);
    assert forall|i: int, j: int| 0 <= i < w1.g1 && 0 <= j < w1.g1 implies #[trigger] w1.lambda_matrix@[i]@[j] == w2.lambda_matrix@[i]@[j] by {
        assert(w2.lambda_matrix@[i]@[j] == if i >= 1 && j >= 1 { lambda_entry(ap, m as usize, i, j) } else { 0 });
    }
}

proof fn lemma_same_min_max(a: Seq<usize>, b: Seq<usize>)
    requires
        a.len() > 0,
        b.len() > 0,
        same_elements(a, b),
    ensures
        seq_min(a) == seq_min(b),
        seq_max(a) == seq_max(b),
{
    lemma_seq_min(a);
    lemma_seq_min(b);
    lemma_seq_max(a);
    lemma_seq_max(b);
    let i1 = choose|i: int| 0 <= i < a.len() && a[i] == seq_min(a);
    let i2 = choose|i: int| 0 <= i < b.len() && b[i] == seq_min(b);
    let j1 = choose|i: int| 0 <= i < a.len() && a[i] == seq_max(a);
    let j2 = choose|i: int| 0 <= i < b.len() && b[i] == seq_max(b);
    assert(b.contains(a[i1]));
    assert(a.contains(b[i2]));
    assert(b.contains(a[j1]));
    assert(a.contains(b[j2]));
}

proof fn lemma_count_members_same(a: Seq<usize>, b: Seq<usize>, n: nat)
    requires
        forall|x: nat| #[trigger] in_sg(a, x) == in_sg(b, x),
    ensures
        count_members(a, n) == count_members(b, n),
    decreases n,
{
    if n > 0 {
        lemma_count_members_same(a, b, (n - 1) as nat);
        assert(in_sg(a, (n - 1) as nat) == in_sg(b, (n - 1) as nat));
    }
}

/// `generatewilf` accepts an input whose reduced form holds the same numbers as that of an
/// input that it accepts.
pub proof fn lemma_generatewilf_ok_same_semigroup(s1: Seq<usize>, s2: Seq<usize>)
    requires
        generatewilf_ok(s1),
        s2.len() > 0,
        all_positive(s2),
        same_elements(reduce(s1), reduce(s2)),
    ensures
        generatewilf_ok(s2),
{
    let g1 = reduce(s1);
    let g2 = reduce(s2);
    lemma_reduce_positive(s1);
    lemma_reduce_positive(s2);
    lemma_same_min_max(g1, g2);
    let m = seq_min(g1);
    assert(wilf_input_ok(s2));
    assert forall|x: nat| #[trigger] in_sg(g1, x) == in_sg(g2, x) by {
        lemma_in_sg_same_elements(g1, g2, x);
    }
    lemma_generatewilf_residues(s1);
    lemma_generatewilf_residues(s2);
    lemma_all_apery(g1, m, seq_max(g1) * seq_max(g1) + m);
    lemma_all_apery(g2, m, seq_max(g2) * seq_max(g2) + m);
    assert forall|r: nat| r < m implies apery(g1, m, r) == #[trigger] apery(g2, m, r) by {
        let a = apery(g1, m, r);
        assert(is_apery(g2, m, r, a)) by {
            assert(in_sg(g1, a) == in_sg(g2, a));
            assert forall|y: nat| y < a && y % m == r implies !#[trigger] in_sg(g2, y) by {
                assert(in_sg(g1, y) == in_sg(g2, y));
            }
        }
        lemma_apery_is(g2, m, r, a);
    }
    assert(apery_seq(g2, m) =~= apery_seq(g1, m));
    let c = (seq_max(apery_seq(g1, m)) - m + 1) as nat;
    lemma_count_members_same(g1, g2, c);
}

/// Permuting an accepted input, repeating its numbers or multiplying them all by `k`
/// gives an input that `generatewilf` accepts and whose reduced form holds the same
/// numbers; by `lemma_generatewilf_same_semigroup` both give the same results.
pub proof fn lemma_generatewilf_permuted_scaled(x: Seq<usize>, y: Seq<usize>, k: nat)
    requires
        generatewilf_ok(x),
        y.len() > 0,
        same_elements(x, y),
        k > 0,
        forall|i: int| 0 <= i < y.len() ==> k * #[trigger] y[i] <= usize::MAX,
    ensures
        generatewilf_ok(scaled(y, k)),
        same_elements(reduce(x), reduce(scaled(y, k))),
{
    assert(all_positive(y)) by {
        assert forall|i: int| 0 <= i < y.len() implies #[trigger] y[i] > 0 by {
            assert(x.contains(y[i]));
        }
    }
    lemma_reduce_same_elements(x, y);
    lemma_reduce_scaled(y, k);
    lemma_gcd_seq_scaled(y, k);
    lemma_generatewilf_ok_same_semigroup(x, scaled(y, k));
}

/// The results of `generatewilf` on an accepted input and on a permutation of it with
/// every number multiplied by `k` agree on every field.
pub proof fn lemma_generatewilf_invariant(x: Seq<usize>, y: Seq<usize>, k: nat, wx: WilfSet, wz: WilfSet)
    requires
        generatewilf_ok(x),
        generatewilf_post(x, wx),
        y.len() > 0,
        same_elements(x, y),
        k > 0,
        forall|i: int| 0 <= i < y.len() ==> k * #[trigger] y[i] <= usize::MAX,
        generatewilf_post(scaled(y, k), wz),
    ensures
        wx.set@ == wz.set@,
        wx.apery@ == wz.apery@,
        wx.g1 == wz.g1,
        wx.max_a == wz.max_a,
        wx.sum_a == wz.sum_a,
        wx.double_avg_a == wz.double_avg_a,
        wx.maxgap == wz.maxgap,
        wx.c == wz.c,
        wx.count_set == wz.count_set,
        wx.count_gap == wz.count_gap,
        wx.gen_flags@ == wz.gen_flags@,
        wx.gen_set@ == wz.gen_set@,
        wx.e == wz.e,
        wx.defect == wz.defect,
        wx.a1 == wz.a1,
        forall|i: int, j: int| 0 <= i < wx.g1 && 0 <= j < wx.g1 ==> #[trigger] wx.lambda_matrix@[i]@[j] == wz.lambda_matrix@[i]@[j],
{
    lemma_generatewilf_permuted_scaled(x, y, k);
    lemma_generatewilf_same_semigroup(x, scaled(y, k), wx, wz);
}

/// Some number in `c..c + s` is congruent to `r` modulo `s`.
proof fn lemma_class_hit(c: nat, s: nat, r: nat) -> (y: nat)
    requires
        s > 0,
        r < s,
    ensures
        c <= y < c + s,
        y % s == r,
{
    let cr = c % s;
    lemma_fundamental_div_mod(c as int, s as int);
    lemma_mod_bound(c as int, s as int);
    let q = c / s;
    let y: nat = if r >= cr { (c - cr + r) as nat } else { (c - cr + r + s) as nat };
    if r >= cr {
        assert(y == q * s + r) by (nonlinear_arith)
            requires c == s * q + cr, y == c - cr + r;
        lemma_fundamental_div_mod_converse(y as int, s as int, q as int, r as int);
    } else {
        assert(y == (q + 1) * s + r) by (nonlinear_arith)
            requires c == s * q + cr, y == c - cr + r + s;
        lemma_fundamental_div_mod_converse(y as int, s as int, (q + 1) as int, r as int);
    }
    y
}

pub fn apery_mod(wilf: &WilfSet, s: usize) -> (res: Vec<usize>)
    requires
        table_base_ok(*wilf),
        s > 0,
        wilf.c + s <= usize::MAX,
    ensures
        res@.len() == s,
        forall|r: int| 0 <= r < s ==> is_least_in_class(wilf.set@, wilf.c as nat, s as nat, r as nat, #[trigger] res@[r] as nat),
{
    let ghost set = wilf.set@;
    let ghost c = wilf.c as nat;
    let mut apery_s: Vec<Option<usize>> = Vec::new();
    let mut k: usize = 0;
    while k < s
        invariant
            0 <= k <= s,
            apery_s@.len() == k,
            forall|r: int| 0 <= r < k ==> #[trigger] apery_s@[r] == None::<usize>,
        decreases s - k,
    {
        apery_s.push(None);
        k = k + 1;
    }
    apery_s.set(0, Some(0));
    proof {
        assert forall|r: int| 1 <= r < s implies match #[trigger] apery_s@[r] {
            None => forall|y: nat| y < 1 && y % (s as nat) == r ==> !#[trigger] table_member(set, c, y),
            Some(a) => a < 1 && is_least_in_class(set, c, s as nat, r as nat, a as nat),
        } by {
            lemma_small_mod(0, s as nat);
        }
    }
    let mut index: usize = 1;
    while index < wilf.c + s
        invariant
            set == wilf.set@,
            c == wilf.c,
            table_base_ok(*wilf),
            s > 0,
            wilf.c + s <= usize::MAX,
            1 <= index <= wilf.c + s,
            apery_s@.len() == s,
            apery_s@[0] == Some(0usize),
            forall|r: int| 1 <= r < s ==> match #[trigger] apery_s@[r] {
                None => forall|y: nat| y < index && y % (s as nat) == r ==> !#[trigger] table_member(set, c, y),
                Some(a) => a < index && is_least_in_class(set, c, s as nat, r as nat, a as nat),
            },
        decreases wilf.c + s - index,
    {
        let modul = index % s;
        if index >= wilf.c || 1u8 == wilf.set[index] {
            let ghost before = apery_s@;
            let v = match apery_s[modul] {
                None => Some(index),
                Some(current) => {
                    if index < current {
                        Some(index)
                    } else {
                        Some(current)
                    }
                },
            };
            apery_s.set(modul, v);
            proof {
                if modul == 0 {
                    assert(apery_s@[0] == Some(0usize)) by {
                        assert(before[0] == Some(0usize));
                    }
                }
            }
        }
        proof {
            lemma_mod_bound(index as int, s as int);
        }
        index = index + 1;
    }
    proof {
        assert forall|r: int| 1 <= r < s implies (#[trigger] apery_s@[r]) is Some by {
            if apery_s@[r] is None {
                let y = lemma_class_hit(wilf.c as nat, s as nat, r as nat);
                assert(table_member(set, c, y));
            }
        }
    }
    let mut res: Vec<usize> = Vec::new();
    let mut r: usize = 0;
    while r < s
        invariant
            set == wilf.set@,
            c == wilf.c,
            table_base_ok(*wilf),
            s > 0,
            0 <= r <= s,
            apery_s@.len() == s,
            apery_s@[0] == Some(0usize),
            forall|r2: int| 1 <= r2 < s ==> match #[trigger] apery_s@[r2] {
                None => false,
                Some(a) => is_least_in_class(set, c, s as nat, r2 as nat, a as nat),
            },
            res@.len() == r,
            forall|r2: int| 0 <= r2 < r ==> is_least_in_class(set, c, s as nat, r2 as nat, #[trigger] res@[r2] as nat),
        decreases s - r,
    {
        let a = apery_s[r].unwrap();
        proof {
            if r == 0 {
                lemma_small_mod(0, s as nat);
                assert(table_member(set, c, 0));
            }
        }
        res.push(a);
        r = r + 1;
    }
    res
}

/// The least members modulo `s` of the table, by residue.
pub open spec fn least_classes(w: WilfSet, s: nat, ap: Seq<usize>) -> bool {
    &&& ap.len() == s
    &&& forall|r: int| 0 <= r < s ==> is_least_in_class(w.set@, w.c as nat, s, r as nat, #[trigger] ap[r] as nat)
}

/// Selmer's formula for the least members modulo a member `s` of the semigroup of `w`, the
/// identity that the page prints below the table modulo `s`: they sum to
/// `s * count_gap + s (s - 1) / 2`.
pub proof fn lemma_apery_mod_selmer(inp: Seq<usize>, w: WilfSet, s: nat, ap: Seq<usize>)
    requires
        generatewilf_ok(inp),
        generatewilf_post(inp, w),
        s > 0,
        table_member(w.set@, w.c as nat, s),
        least_classes(w, s, ap),
    ensures
        s * w.count_gap + (s * (s - 1)) / 2 == seq_sum(ap),
{
    let g = reduce(inp);
    let c = w.c as nat;
    lemma_generatewilf_table(inp, w);
    assert(in_sg(g, s));
    assert forall|r: int| 0 <= r < s implies is_apery(g, s, r as nat, #[trigger] ap[r] as nat) by {
        assert(is_least_in_class(w.set@, c, s, r as nat, ap[r] as nat));
        assert(table_member(w.set@, c, ap[r] as nat));
        assert forall|y: nat| y < ap[r] && y % s == r implies !#[trigger] in_sg(g, y) by {
            assert(!table_member(w.set@, c, y));
        }
    }
    assert forall|x: nat| x >= c implies #[trigger] in_sg(g, x) by {
        assert(table_member(w.set@, c, x));
    }
    lemma_selmer_modulus(g, s, ap, c);
}

/// `(ap[i] + ap[j] - ap[(i + j) % s]) / s`.
pub open spec fn lambda_of(ap: Seq<usize>, s: nat, i: int, j: int) -> int {
    (ap[i] + ap[j] - ap[(i + j) % (s as int)]) / (s as int)
}

/// Sum over `i < n` of the lambda entries `(i, (s + d - i) % s)`.
pub open spec fn diag_total(ap: Seq<usize>, s: nat, d: int, n: nat) -> int
    decreases n,
{
    if n == 0 {
        0
    } else {
        diag_total(ap, s, d, (n - 1) as nat) + lambda_of(ap, s, n - 1, (s + d - (n - 1)) % (s as int))
    }
}

/// Sum over `j < n` of the lambda entries `(i, j)`.
pub open spec fn row_total(ap: Seq<usize>, s: nat, i: int, n: nat) -> int
    decreases n,
{
    if n == 0 {
        0
    } else {
        row_total(ap, s, i, (n - 1) as nat) + lambda_of(ap, s, i, n - 1)
    }
}

/// Every pairwise sum of the least members fits in a `usize`.
pub open spec fn pair_sums_fit(ap: Seq<usize>) -> bool {
    forall|i: int, j: int| 0 <= i < ap.len() && 0 <= j < ap.len() ==> #[trigger] ap[i] + #[trigger] ap[j] <= usize::MAX
}

/// In a table of a semigroup, the sum of the least members of two classes is at least the
/// least member of the class of the sum.
proof fn lemma_least_sum(w: WilfSet, s: nat, ap: Seq<usize>, i: int, j: int)
    requires
        table_ok(w),
        s > 0,
        least_classes(w, s, ap),
        0 <= i < s,
        0 <= j < s,
    ensures
        ap[i] + ap[j] >= ap[(i + j) % (s as int)],
        lambda_of(ap, s, i, j) >= 0,
{
    let k = (i + j) % (s as int);
    lemma_mod_bound(i + j, s as int);
    assert(is_least_in_class(w.set@, w.c as nat, s, i as nat, ap[i] as nat));
    assert(is_least_in_class(w.set@, w.c as nat, s, j as nat, ap[j] as nat));
    assert(is_least_in_class(w.set@, w.c as nat, s, k as nat, ap[k] as nat));
    lemma_table_closed_at(w, ap[i] as nat, ap[j] as nat);
    assert(((ap[i] + ap[j]) as nat) % s == k) by {
        lemma_add_mod_noop(ap[i] as int, ap[j] as int, s as int);
    }
    if ap[i] + ap[j] < ap[k] {
        assert(!table_member(w.set@, w.c as nat, (ap[i] + ap[j]) as nat));
    }
    lemma_div_pos_is_pos(ap[i] + ap[j] - ap[k], s as int);
}

/// The lambda entry `(i, j)` of the least members modulo `s`.
pub fn lambda_mod(wilf: &WilfSet, ap: &Vec<usize>, s: usize, i: usize, j: usize) -> (l: usize)
    requires
        table_ok(*wilf),
        s > 0,
        2 * s <= usize::MAX,
        least_classes(*wilf, s as nat, ap@),
        i < s,
        j < s,
        ap@[i as int] + ap@[j as int] <= usize::MAX,
    ensures
        l == lambda_of(ap@, s as nat, i as int, j as int),
{
    proof {
        lemma_least_sum(*wilf, s as nat, ap@, i as int, j as int);
    }
    (ap[i] + ap[j] - ap[(i + j) % s]) / s
}

/// The diagonal sums `diag[d]` of the lambda entries of the least members modulo `s`;
/// `None` where a sum does not fit in a `usize`.
pub fn diag_mod(wilf: &WilfSet, ap: &Vec<usize>, s: usize) -> (res: Option<Vec<usize>>)
    requires
        table_ok(*wilf),
        s > 0,
        2 * s <= usize::MAX,
        least_classes(*wilf, s as nat, ap@),
        pair_sums_fit(ap@),
    ensures
        res is Some <==> forall|d: int| 0 <= d < s ==> #[trigger] diag_total(ap@, s as nat, d, s as nat) <= usize::MAX,
        res matches Some(v) ==> v@.len() == s && forall|d: int| 0 <= d < s ==> #[trigger] v@[d] == diag_total(ap@, s as nat, d, s as nat),
{
    let mut diag: Vec<usize> = Vec::new();
    let mut d: usize = 0;
    while d < s
        invariant
            table_ok(*wilf),
            s > 0,
            2 * s <= usize::MAX,
            least_classes(*wilf, s as nat, ap@),
            pair_sums_fit(ap@),
            0 <= d <= s,
            diag@.len() == d,
            forall|d2: int| 0 <= d2 < d ==> #[trigger] diag@[d2] == diag_total(ap@, s as nat, d2, s as nat),
            forall|d2: int| 0 <= d2 < d ==> #[trigger] diag_total(ap@, s as nat, d2, s as nat) <= usize::MAX,
        decreases s - d,
    {
        let mut sum: usize = 0;
        let mut i: usize = 0;
        while i < s
            invariant
                table_ok(*wilf),
                s > 0,
                2 * s <= usize::MAX,
                least_classes(*wilf, s as nat, ap@),
                pair_sums_fit(ap@),
                0 <= d < s,
                0 <= i <= s,
                sum == diag_total(ap@, s as nat, d as int, i as nat),
            decreases s - i,
        {
            let j = (s + d - i) % s;
            proof {
                lemma_mod_bound((s + d - i) as int, s as int);
                assert(ap@[i as int] + ap@[j as int] <= usize::MAX);
            }
            let l = lambda_mod(wilf, ap, s, i, j);
            if sum > usize::MAX - l {
                proof {
                    lemma_diag_total_mono(wilf, ap@, s as nat, d as int, (i + 1) as nat, s as nat);
                }
                return None;
            }
            sum = sum + l;
            i = i + 1;
        }
        diag.push(sum);
        d = d + 1;
    }
    Some(diag)
}

proof fn lemma_diag_total_mono(wilf: &WilfSet, ap: Seq<usize>, s: nat, d: int, a: nat, b: nat)
    requires
        table_ok(*wilf),
        s > 0,
        least_classes(*wilf, s, ap),
        a <= b <= s,
    ensures
        diag_total(ap, s, d, a) <= diag_total(ap, s, d, b),
    decreases b - a,
{
    if a < b {
        lemma_diag_total_mono(wilf, ap, s, d, a, (b - 1) as nat);
        lemma_mod_bound(s + d - (b - 1), s as int);
        lemma_least_sum(*wilf, s, ap, b - 1, (s + d - (b - 1)) % (s as int));
    }
}

proof fn lemma_row_total_mono(wilf: &WilfSet, ap: Seq<usize>, s: nat, i: int, a: nat, b: nat)
    requires
        table_ok(*wilf),
        s > 0,
        least_classes(*wilf, s, ap),
        0 <= i < s,
        a <= b <= s,
    ensures
        row_total(ap, s, i, a) <= row_total(ap, s, i, b),
    decreases b - a,
{
    if a < b {
        lemma_row_total_mono(wilf, ap, s, i, a, (b - 1) as nat);
        lemma_least_sum(*wilf, s, ap, i, b - 1);
    }
}

/// The row sums `sum_j lambda(i, j)` of the lambda entries of the least members modulo
/// `s`; `None` where a sum does not fit in a `usize`.
pub fn row_sums_mod(wilf: &WilfSet, ap: &Vec<usize>, s: usize) -> (res: Option<Vec<usize>>)
    requires
        table_ok(*wilf),
        s > 0,
        2 * s <= usize::MAX,
        least_classes(*wilf, s as nat, ap@),
        pair_sums_fit(ap@),
    ensures
        res is Some <==> forall|i: int| 0 <= i < s ==> #[trigger] row_total(ap@, s as nat, i, s as nat) <= usize::MAX,
        res matches Some(v) ==> v@.len() == s && forall|i: int| 0 <= i < s ==> #[trigger] v@[i] == row_total(ap@, s as nat, i, s as nat),
{
    let mut rows: Vec<usize> = Vec::new();
    let mut i: usize = 0;
    while i < s
        invariant
            table_ok(*wilf),
            s > 0,
            2 * s <= usize::MAX,
            least_classes(*wilf, s as nat, ap@),
            pair_sums_fit(ap@),
            0 <= i <= s,
            rows@.len() == i,
            forall|i2: int| 0 <= i2 < i ==> #[trigger] rows@[i2] == row_total(ap@, s as nat, i2, s as nat),
            forall|i2: int| 0 <= i2 < i ==> #[trigger] row_total(ap@, s as nat, i2, s as nat) <= usize::MAX,
        decreases s - i,
    {
        let mut sum: usize = 0;
        let mut j: usize = 0;
        while j < s
            invariant
                table_ok(*wilf),
                s > 0,
                2 * s <= usize::MAX,
                least_classes(*wilf, s as nat, ap@),
                pair_sums_fit(ap@),
                0 <= i < s,
                0 <= j <= s,
                sum == row_total(ap@, s as nat, i as int, j as nat),
            decreases s - j,
        {
            proof {
                assert(ap@[i as int] + ap@[j as int] <= usize::MAX);
            }
            let l = lambda_mod(wilf, ap, s, i, j);
            if sum > usize::MAX - l {
                proof {
                    lemma_row_total_mono(wilf, ap@, s as nat, i as int, (j + 1) as nat, s as nat);
                }
                return None;
            }
            sum = sum + l;
            j = j + 1;
        }
        rows.push(sum);
        i = i + 1;
    }
    Some(rows)
}

/// Whether every pairwise sum of the entries fits in a `usize`.
pub fn pair_sums_fit_check(ap: &Vec<usize>) -> (b: bool)
    ensures
        b == pair_sums_fit(ap@),
{
    if ap.len() == 0 {
        return true;
    }
    let mut mx: usize = ap[0];
    let ghost mut at: int = 0;
    let mut k: usize = 1;
    while k < ap.len()
        invariant
            1 <= k <= ap@.len(),
            forall|a: int| 0 <= a < k ==> #[trigger] ap@[a] <= mx,
            0 <= at < k,
            ap@[at] == mx,
        decreases ap@.len() - k,
    {
        if ap[k] > mx {
            mx = ap[k];
            proof {
                at = k as int;
            }
        }
        k = k + 1;
    }
    proof {
        if mx <= usize::MAX - mx {
            assert forall|i: int, j: int| 0 <= i < ap@.len() && 0 <= j < ap@.len() implies #[trigger] ap@[i] + #[trigger] ap@[j] <= usize::MAX by {
                assert(ap@[i] <= mx && ap@[j] <= mx);
            }
        } else {
            assert(ap@[at] + ap@[at] > usize::MAX);
        }
    }
    mx <= usize::MAX - mx
}

/// Sum of the entries; `None` when it does not fit in a `usize`.
pub fn checked_total(v: &Vec<usize>) -> (res: Option<usize>)
    ensures
        res is Some <==> seq_sum(v@) <= usize::MAX,
        res matches Some(t) ==> t == seq_sum(v@),
{
    let mut sum: usize = 0;
    let mut k: usize = 0;
    assert(v@.take(0) =~= Seq::<usize>::empty());
    while k < v.len()
        invariant
            0 <= k <= v@.len(),
            sum == seq_sum(v@.take(k as int)),
        decreases v@.len() - k,
    {
        proof {
            lemma_seq_sum_step(v@, k as int);
        }
        if sum > usize::MAX - v[k] {
            proof {
                lemma_seq_sum_ge(v@, k + 1);
            }
            return None;
        }
        sum = sum + v[k];
        k = k + 1;
    }
    assert(v@.take(v@.len() as int) =~= v@);
    Some(sum)
}

/// The quotients `(ap[i] - i) / s` of the least members modulo `s`.
pub fn quotients_mod(wilf: &WilfSet, ap: &Vec<usize>, s: usize) -> (q: Vec<usize>)
    requires
        s > 0,
        least_classes(*wilf, s as nat, ap@),
    ensures
        q@.len() == s,
        forall|i: int| 0 <= i < s ==> #[trigger] q@[i] == (ap@[i] - i) / (s as int),
{
    let mut q: Vec<usize> = Vec::new();
    let mut i: usize = 0;
    while i < s
        invariant
            s > 0,
            least_classes(*wilf, s as nat, ap@),
            0 <= i <= s,
            q@.len() == i,
            forall|i2: int| 0 <= i2 < i ==> #[trigger] q@[i2] == (ap@[i2] - i2) / (s as int),
        decreases s - i,
    {
        proof {
            assert(is_least_in_class(wilf.set@, wilf.c as nat, s as nat, i as nat, ap@[i as int] as nat));
            lemma_mod_bound(ap@[i as int] as int, s as int);
            lemma_fundamental_div_mod(ap@[i as int] as int, s as int);
            assert(ap@[i as int] >= i) by (nonlinear_arith)
                requires ap@[i as int] == s * (ap@[i as int] / s) + i, ap@[i as int] / s >= 0, s > 0;
        }
        q.push((ap[i] - i) / s);
        i = i + 1;
    }
    q
}

/// How a cell of the membership grid is drawn.
#[derive(PartialEq, Eq, Structural, Clone, Copy, Debug)]
pub enum CellKind {
    /// A member that is neither an Apéry element nor a minimal generator.
    Full,
    /// A minimal generator.
    Generator,
    /// An Apéry element that is not a minimal generator.
    Apery,
    /// A gap.
    Empty,
}

/// The kind of the cell of number `index` in column `col` of the grid.
pub open spec fn cell_kind_spec(set: Seq<u8>, apery: Seq<usize>, gen_flags: Seq<usize>, index: int, col: int) -> CellKind {
    let is_apery = apery[col] == index;
    let is_gen = gen_flags[col] == index;
    if set[index] == 1 && !is_apery && !is_gen {
        CellKind::Full
    } else if set[index] == 1 && is_gen {
        CellKind::Generator
    } else if set[index] == 1 && is_apery && !is_gen {
        CellKind::Apery
    } else {
        CellKind::Empty
    }
}

impl WilfSet {
    /// Number of rows of `g1` cells in the membership grid.
    pub fn height(&self) -> (h: usize)
        requires
            self.g1 > 0,
        ensures
            h == self.set@.len() / (self.g1 as nat),
    {
        self.set.len() / self.g1
    }

    /// The kind of the cell of number `index` in column `col` of the grid.
    pub fn cell_kind(&self, index: usize, col: usize) -> (k: CellKind)
        requires
            index < self.set@.len(),
            col < self.apery@.len(),
            col < self.gen_flags@.len(),
        ensures
            k == cell_kind_spec(self.set@, self.apery@, self.gen_flags@, index as int, col as int),
    {
        let is_apery = self.apery[col] == index;
        let is_gen = self.gen_flags[col] == index;
        if 1 == self.set[index] && !is_apery && !is_gen {
            CellKind::Full
        } else if 1 == self.set[index] && is_gen {
            CellKind::Generator
        } else if 1 == self.set[index] && is_apery && !is_gen {
            CellKind::Apery
        } else {
            CellKind::Empty
        }
    }
}

/// Sum of the first `n` entries of row `i` of `mat`.
pub open spec fn mat_row_total(mat: Seq<Vec<usize>>, i: int, n: nat) -> nat
    decreases n,
{
    if n == 0 {
        0
    } else {
        mat_row_total(mat, i, (n - 1) as nat) + mat[i]@[n - 1] as nat
    }
}

/// Sum over `k < n` of the entries `(k, (i + g1 - k) % g1)` of `mat`.
pub open spec fn mat_diag_total(mat: Seq<Vec<usize>>, g1: nat, i: int, n: nat) -> nat
    decreases n,
{
    if n == 0 {
        0
    } else {
        mat_diag_total(mat, g1, i, (n - 1) as nat) + mat[n - 1]@[(i + g1 - (n - 1)) % (g1 as int)] as nat
    }
}

/// The row sums and diagonal sums of the lambda matrix, the largest row sum (the last
/// one when several are equal) and the least diagonal sum, starting from `double_avg_a`.
pub struct LambdaStats {
    pub row_sums: Vec<usize>,
    pub diag_sums: Vec<usize>,
    pub max_apery: usize,
    pub min_diag: usize,
}

/// Largest of `start` and the first `n` entries.
pub open spec fn running_max(v: Seq<usize>, n: nat, start: nat) -> nat
    decreases n,
{
    if n == 0 {
        start
    } else {
        let t = running_max(v, (n - 1) as nat, start);
        if v[n - 1] >= t { v[n - 1] as nat } else { t }
    }
}

/// Least of `start` and the first `n` entries.
pub open spec fn running_min(v: Seq<usize>, n: nat, start: nat) -> nat
    decreases n,
{
    if n == 0 {
        start
    } else {
        let t = running_min(v, (n - 1) as nat, start);
        if v[n - 1] <= t { v[n - 1] as nat } else { t }
    }
}

proof fn lemma_mat_row_mono(mat: Seq<Vec<usize>>, i: int, a: nat, b: nat)
    requires
        a <= b,
    ensures
        mat_row_total(mat, i, a) <= mat_row_total(mat, i, b),
    decreases b - a,
{
    if a < b {
        lemma_mat_row_mono(mat, i, a, (b - 1) as nat);
    }
}

proof fn lemma_mat_diag_mono(mat: Seq<Vec<usize>>, g1: nat, i: int, a: nat, b: nat)
    requires
        a <= b,
    ensures
        mat_diag_total(mat, g1, i, a) <= mat_diag_total(mat, g1, i, b),
    decreases b - a,
{
    if a < b {
        lemma_mat_diag_mono(mat, g1, i, a, (b - 1) as nat);
    }
}

/// The sums over the lambda matrix that the grid page shows; `None` when one of them does
/// not fit in a `usize`.
#[verifier::spinoff_prover]
pub fn lambda_stats(w: &WilfSet) -> (res: Option<LambdaStats>)
    requires
        w.g1 > 0,
        2 * w.g1 <= usize::MAX,
        is_square(w.lambda_matrix@, w.g1 as nat),
    ensures
        res is Some <==> (forall|i: int| 0 <= i < w.g1 ==> #[trigger] mat_row_total(w.lambda_matrix@, i, w.g1 as nat) <= usize::MAX
            && mat_diag_total(w.lambda_matrix@, w.g1 as nat, i, w.g1 as nat) <= usize::MAX),
        res matches Some(st) ==> {
            &&& st.row_sums@.len() == w.g1
            &&& st.diag_sums@.len() == w.g1
            &&& forall|i: int| 0 <= i < w.g1 ==> #[trigger] st.row_sums@[i] == mat_row_total(w.lambda_matrix@, i, w.g1 as nat)
            &&& forall|i: int| 0 <= i < w.g1 ==> #[trigger] st.diag_sums@[i] == mat_diag_total(w.lambda_matrix@, w.g1 as nat, i, w.g1 as nat)
            &&& st.max_apery == running_max(st.row_sums@, w.g1 as nat, 0)
            &&& st.min_diag == running_min(st.diag_sums@, w.g1 as nat, w.double_avg_a as nat)
        },
{
    let g1 = w.g1;
    let ghost mat = w.lambda_matrix@;
    let mut row_sums: Vec<usize> = Vec::new();
    let mut diag_sums: Vec<usize> = Vec::new();
    let mut max_apery: usize = 0;
    let mut min_diag: usize = w.double_avg_a;
    let mut i: usize = 0;
    while i < g1
        invariant
            g1 == w.g1,
            mat == w.lambda_matrix@,
            g1 > 0,
            2 * g1 <= usize::MAX,
            is_square(mat, g1 as nat),
            0 <= i <= g1,
            row_sums@.len() == i,
            diag_sums@.len() == i,
            forall|i2: int| 0 <= i2 < i ==> #[trigger] row_sums@[i2] == mat_row_total(mat, i2, g1 as nat),
            forall|i2: int| 0 <= i2 < i ==> #[trigger] diag_sums@[i2] == mat_diag_total(mat, g1 as nat, i2, g1 as nat),
            forall|i2: int| 0 <= i2 < i ==> #[trigger] mat_row_total(mat, i2, g1 as nat) <= usize::MAX
                && mat_diag_total(mat, g1 as nat, i2, g1 as nat) <= usize::MAX,
            max_apery == running_max(row_sums@, i as nat, 0),
            min_diag == running_min(diag_sums@, i as nat, w.double_avg_a as nat),
        decreases g1 - i,
    {
        let mut apery: usize = 0;
        let mut j: usize = 0;
        while j < g1
            invariant
                g1 == w.g1,
                mat == w.lambda_matrix@,
                is_square(mat, g1 as nat),
                0 <= i < g1,
                0 <= j <= g1,
                apery == mat_row_total(mat, i as int, j as nat),
            decreases g1 - j,
        {
            let x = w.lambda_matrix[i][j];
            if apery > usize::MAX - x {
                proof {
                    lemma_mat_row_mono(mat, i as int, (j + 1) as nat, g1 as nat);
                    assert(mat_row_total(mat, i as int, g1 as nat) > usize::MAX);
                }
                return None;
            }
            apery = apery + x;
            j = j + 1;
        }
        let mut dsum: usize = 0;
        let mut k: usize = 0;
        while k < g1
            invariant
                g1 == w.g1,
                mat == w.lambda_matrix@,
                is_square(mat, g1 as nat),
                2 * g1 <= usize::MAX,
                0 <= i < g1,
                0 <= k <= g1,
                dsum == mat_diag_total(mat, g1 as nat, i as int, k as nat),
            decreases g1 - k,
        {
            let col = (i + g1 - k) % g1;
            proof {
                lemma_mod_bound((i + g1 - k) as int, g1 as int);
            }
            let x = w.lambda_matrix[k][col];
            if dsum > usize::MAX - x {
                proof {
                    assert(mat_diag_total(mat, g1 as nat, i as int, (k + 1) as nat) == dsum + x);
                    lemma_mat_diag_mono(mat, g1 as nat, i as int, (k + 1) as nat, g1 as nat);
                    assert(!(mat_row_total(mat, i as int, g1 as nat) <= usize::MAX
                        && mat_diag_total(mat, g1 as nat, i as int, g1 as nat) <= usize::MAX));
                    assert(mat_diag_total(w.lambda_matrix@, w.g1 as nat, i as int, w.g1 as nat) > usize::MAX);
                    assert(0 <= i < w.g1);
                    let ii: int = i as int;
                    assert(!(mat_row_total(w.lambda_matrix@, ii, w.g1 as nat) <= usize::MAX
                        && mat_diag_total(w.lambda_matrix@, w.g1 as nat, ii, w.g1 as nat) <= usize::MAX));
                }
                return None;
            }
            dsum = dsum + x;
            k = k + 1;
        }
        assert(mat_row_total(mat, i as int, g1 as nat) <= usize::MAX
            && mat_diag_total(mat, g1 as nat, i as int, g1 as nat) <= usize::MAX);
        let ghost rs0 = row_sums@;
        let ghost ds0 = diag_sums@;
        row_sums.push(apery);
        diag_sums.push(dsum);
        proof {
            assert(row_sums@.take(i as int) =~= rs0);
            assert(diag_sums@.take(i as int) =~= ds0);
            lemma_running_prefix(row_sums@, i as nat, 0);
            lemma_running_prefix(diag_sums@, i as nat, w.double_avg_a as nat);
        }
        if apery >= max_apery {
            max_apery = apery;
        }
        if dsum <= min_diag {
            min_diag = dsum;
        }
        i = i + 1;
    }
    Some(LambdaStats { row_sums, diag_sums, max_apery, min_diag })
}

proof fn lemma_running_prefix(v: Seq<usize>, n: nat, start: nat)
    requires
        n <= v.len(),
    ensures
        running_max(v, n, start) == running_max(v.take(n as int), n, start),
        running_min(v, n, start) == running_min(v.take(n as int), n, start),
    decreases n,
{
    if n > 0 {
        lemma_running_prefix(v, (n - 1) as nat, start);
        lemma_running_prefix(v.take(n as int), (n - 1) as nat, start);
        assert(v.take(n as int).take(n - 1) =~= v.take(n - 1));
    }
}

/// The comparison the grid page prints: `(e - 2) * max_apery`, `e * min_diag`, their
/// difference and `(e - 2) * (g1 - 1)`; `None` when one of them is negative or does not
/// fit in a `usize`.
pub fn comparison_terms(e: usize, max_apery: usize, min_diag: usize, g1: usize) -> (res: Option<(usize, usize, usize, usize)>)
    ensures
        res is Some <==> (e >= 2 && (e - 2) * max_apery <= usize::MAX && e * min_diag <= usize::MAX
            && (e - 2) * max_apery >= e * min_diag && g1 >= 1 && (e - 2) * (g1 - 1) <= usize::MAX),
        res matches Some(t) ==> t.0 == (e - 2) * max_apery && t.1 == e * min_diag && t.2 == (e - 2) * max_apery - e * min_diag
            && t.3 == (e - 2) * (g1 - 1),
{
    if e < 2 || g1 < 1 {
        return None;
    }
    let a = e - 2;
    let t0 = match a.checked_mul(max_apery) {
        Some(v) => v,
        None => return None,
    };
    let t1 = match e.checked_mul(min_diag) {
        Some(v) => v,
        None => return None,
    };
    if t0 < t1 {
        return None;
    }
    let t3 = match a.checked_mul(g1 - 1) {
        Some(v) => v,
        None => return None,
    };
    Some((t0, t1, t0 - t1, t3))
}

/// The two sides that the Apéry table modulo `s` is checked with: twice the average of its
/// elements, `2 * sum / s`, and Selmer's sum `gaps * s + s * (s - 1) / 2`; `None` when one
/// of them, or one of the products on the way, does not fit in a `usize`.
pub fn selmer_terms(sum: usize, s: usize, gaps: usize) -> (res: Option<(usize, usize)>)
    requires
        s > 0,
    ensures
        res is Some <==> (2 * sum <= usize::MAX && gaps * s <= usize::MAX && s * (s - 1) <= usize::MAX
            && gaps * s + s * (s - 1) / 2 <= usize::MAX),
        res matches Some(t) ==> t.0 == 2 * sum / (s as int) && t.1 == gaps * s + s * (s - 1) / 2,
{
    let twice = match sum.checked_mul(2) {
        Some(v) => v,
        None => return None,
    };
    let gs = match gaps.checked_mul(s) {
        Some(v) => v,
        None => return None,
    };
    let tri = match s.checked_mul(s - 1) {
        Some(v) => v / 2,
        None => return None,
    };
    match gs.checked_add(tri) {
        Some(v) => Some((twice / s, v)),
        None => None,
    }
}

/// Sum of `ap[(i + j) % ap.len()]` over `j < n`: the entries read from `i` on, round the end.
pub open spec fn rotated_total(ap: Seq<usize>, i: int, n: nat) -> int
    decreases n,
{
    if n == 0 {
        0
    } else {
        rotated_total(ap, i, (n - 1) as nat) + ap[(i + n - 1) % (ap.len() as int)]
    }
}

proof fn lemma_rotated_front(ap: Seq<usize>, i: int, n: nat)
    requires
        0 <= i,
        i + n <= ap.len(),
    ensures
        rotated_total(ap, i, n) == seq_sum(ap.take(i + n)) - seq_sum(ap.take(i)),
    decreases n,
{
    if n > 0 {
        lemma_rotated_front(ap, i, (n - 1) as nat);
        lemma_small_mod((i + n - 1) as nat, ap.len());
        lemma_seq_sum_step(ap, i + n - 1);
    }
}

proof fn lemma_rotated_back(ap: Seq<usize>, i: int, n: nat)
    requires
        0 <= i < ap.len(),
        ap.len() - i <= n <= ap.len(),
    ensures
        rotated_total(ap, i, n) == seq_sum(ap) - seq_sum(ap.take(i)) + seq_sum(ap.take(n - (ap.len() - i))),
    decreases n,
{
    let len = ap.len() as int;
    assert(ap.take(len) =~= ap);
    if n == len - i {
        lemma_rotated_front(ap, i, n);
        assert(ap.take(0) =~= Seq::<usize>::empty());
    } else {
        lemma_rotated_back(ap, i, (n - 1) as nat);
        let t = i + n - 1;
        lemma_fundamental_div_mod_converse(t, len, 1, t - len);
        lemma_seq_sum_step(ap, n - 1 - (len - i));
    }
}

/// Reading all entries from any place on, round the end, gives their sum.
proof fn lemma_rotated_full(ap: Seq<usize>, i: int)
    requires
        0 <= i < ap.len(),
    ensures
        rotated_total(ap, i, ap.len()) == seq_sum(ap),
{
    lemma_rotated_back(ap, i, ap.len());
}

proof fn lemma_lambda_entry_exact(ap: Seq<usize>, g1: usize, i: int, j: int, e: int)
    requires
        ap.len() == g1,
        g1 > 0,
        ap[0] == 0,
        apery_sums_ok(ap, g1),
        0 <= i < g1,
        0 <= j < g1,
        e == if i >= 1 && j >= 1 { lambda_entry(ap, g1, i, j) } else { 0 },
    ensures
        g1 * e == ap[i] + ap[j] - ap[(i + j) % (g1 as int)],
{
    if i >= 1 && j >= 1 {
        reveal(apery_sums_ok);
        assert(ap[i] + ap[j] >= ap[(i + j) % (g1 as int)]);
        let x = ap[i] + ap[j] - ap[(i + j) % (g1 as int)];
        assert(x % (g1 as int) == 0);
        lemma_fundamental_div_mod(x, g1 as int);
    } else if i == 0 {
        lemma_small_mod(j as nat, g1 as nat);
    } else {
        lemma_small_mod(i as nat, g1 as nat);
    }
}

/// The Apéry set of a result of `generatewilf` starts with 0 and has the pairwise sums
/// that its lambda entries need.
proof fn lemma_result_apery(s: Seq<usize>, w: WilfSet)
    requires
        generatewilf_ok(s),
        generatewilf_post(s, w),
    ensures
        w.apery@.len() == w.g1,
        w.g1 > 0,
        w.apery@[0] == 0,
        apery_sums_ok(w.apery@, w.g1),
        is_square(w.lambda_matrix@, w.g1 as nat),
        forall|i: int, j: int| 0 <= i < w.g1 && 0 <= j < w.g1 ==> #[trigger] w.lambda_matrix@[i]@[j] == if i >= 1 && j >= 1 {
            lambda_entry(w.apery@, w.g1, i, j)
        } else {
            0
        },
{
    let g = reduce(s);
    let m = seq_min(g);
    lemma_reduce_positive(s);
    lemma_seq_min(g);
    lemma_generatewilf_residues(s);
    lemma_all_apery(g, m, seq_max(g) * seq_max(g) + m);
    lemma_apery_zero(g, m);
    lemma_apery_is(g, m, 0, 0);
    lemma_apery_sums(g, m, (seq_max(g) * seq_max(g) + m) as nat);
}

/// The row sums and the symmetry of the lambda matrix of a result of `generatewilf`: row
/// `i` sums to the Apéry element `a_i` (the page labels it so), and entry `(i, j)` is
/// entry `(j, i)`.
pub proof fn lemma_lambda_rows(s: Seq<usize>, w: WilfSet)
    requires
        generatewilf_ok(s),
        generatewilf_post(s, w),
    ensures
        forall|i: int| 0 <= i < w.g1 ==> #[trigger] mat_row_total(w.lambda_matrix@, i, w.g1 as nat) == w.apery@[i],
        forall|i: int, j: int| 0 <= i < w.g1 && 0 <= j < w.g1 ==> #[trigger] w.lambda_matrix@[i]@[j] == w.lambda_matrix@[j]@[i],
{
    let ap = w.apery@;
    let g1 = w.g1;
    lemma_result_apery(s, w);
    assert(ap.take(g1 as int) =~= ap);
    assert forall|i: int| 0 <= i < g1 implies #[trigger] mat_row_total(w.lambda_matrix@, i, g1 as nat) == ap[i] by {
        lemma_row_partial(w, i, g1 as nat);
        lemma_rotated_full(ap, i);
        assert(g1 * mat_row_total(w.lambda_matrix@, i, g1 as nat) == g1 * ap[i]);
        lemma_mul_equality_converse(g1 as int, mat_row_total(w.lambda_matrix@, i, g1 as nat) as int, ap[i] as int);
    }
    assert forall|i: int, j: int| 0 <= i < g1 && 0 <= j < g1 implies #[trigger] w.lambda_matrix@[i]@[j] == w.lambda_matrix@[j]@[i] by {
        assert(w.lambda_matrix@[j]@[i] == if j >= 1 && i >= 1 { lambda_entry(ap, g1, j, i) } else { 0 });
        assert(w.lambda_matrix@[i]@[j] == if i >= 1 && j >= 1 { lambda_entry(ap, g1, i, j) } else { 0 });
        assert(i + j == j + i);
    }
}

proof fn lemma_row_partial(w: WilfSet, i: int, n: nat)
    requires
        w.apery@.len() == w.g1,
        w.g1 > 0,
        w.apery@[0] == 0,
        apery_sums_ok(w.apery@, w.g1),
        is_square(w.lambda_matrix@, w.g1 as nat),
        forall|i: int, j: int| 0 <= i < w.g1 && 0 <= j < w.g1 ==> #[trigger] w.lambda_matrix@[i]@[j] == if i >= 1 && j >= 1 {
            lambda_entry(w.apery@, w.g1, i, j)
        } else {
            0
        },
        0 <= i < w.g1,
        n <= w.g1,
    ensures
        w.g1 * mat_row_total(w.lambda_matrix@, i, n) == n * w.apery@[i] + seq_sum(w.apery@.take(n as int)) - rotated_total(w.apery@, i, n),
    decreases n,
{
    let ap = w.apery@;
    let g1 = w.g1;
    if n == 0 {
        assert(ap.take(0) =~= Seq::<usize>::empty());
        assert(seq_sum(ap.take(0)) == 0);
        assert(n * ap[i] == 0) by (nonlinear_arith) requires n == 0;
        assert(g1 * mat_row_total(w.lambda_matrix@, i, n) == 0) by (nonlinear_arith)
            requires mat_row_total(w.lambda_matrix@, i, n) == 0;
    } else {
        let p = (n - 1) as nat;
        lemma_row_partial(w, i, p);
        let e = w.lambda_matrix@[i]@[p as int];
        lemma_lambda_entry_exact(ap, g1, i, p as int, e as int);
        lemma_seq_sum_step(ap, p as int);
        let t0 = mat_row_total(w.lambda_matrix@, i, p);
        let t1 = mat_row_total(w.lambda_matrix@, i, n);
        let r0 = rotated_total(ap, i, p);
        let r1 = rotated_total(ap, i, n);
        let q0 = seq_sum(ap.take(p as int));
        let q1 = seq_sum(ap.take(n as int));
        assert(t1 == t0 + e);
        assert(r1 == r0 + ap[(i + p) % (g1 as int)]);
        assert(g1 * t1 == n * ap[i] + q1 - r1) by (nonlinear_arith)
            requires
                t1 == t0 + e,
                g1 * t0 == p * ap[i] + q0 - r0,
                g1 * e == ap[i] + ap[p as int] - ap[(i + p) % (g1 as int)],
                q1 == q0 + ap[p as int],
                r1 == r0 + ap[(i + p) % (g1 as int)],
                n == p + 1;
    }
}

/// Sum of `ap[(i + len - k) % len]` over `k < n`: the entries read from `i` backwards,
/// round the start.
pub open spec fn reflected_total(ap: Seq<usize>, i: int, n: nat) -> int
    decreases n,
{
    if n == 0 {
        0
    } else {
        reflected_total(ap, i, (n - 1) as nat) + ap[(i + ap.len() - (n - 1)) % (ap.len() as int)]
    }
}

proof fn lemma_reflected_front(ap: Seq<usize>, i: int, n: nat)
    requires
        0 <= i < ap.len(),
        n <= i + 1,
    ensures
        reflected_total(ap, i, n) == seq_sum(ap.take(i + 1)) - seq_sum(ap.take(i + 1 - n)),
    decreases n,
{
    if n > 0 {
        lemma_reflected_front(ap, i, (n - 1) as nat);
        let len = ap.len() as int;
        let t = i + len - (n - 1);
        lemma_fundamental_div_mod_converse(t, len, 1, i - (n - 1));
        lemma_seq_sum_step(ap, i + 1 - n);
    }
}

proof fn lemma_reflected_back(ap: Seq<usize>, i: int, n: nat)
    requires
        0 <= i < ap.len(),
        i + 1 <= n <= ap.len(),
    ensures
        reflected_total(ap, i, n) == seq_sum(ap.take(i + 1)) + seq_sum(ap) - seq_sum(ap.take(ap.len() - (n - i - 1))),
    decreases n,
{
    let len = ap.len() as int;
    assert(ap.take(len) =~= ap);
    if n == i + 1 {
        lemma_reflected_front(ap, i, n);
        assert(ap.take(0) =~= Seq::<usize>::empty());
    } else {
        lemma_reflected_back(ap, i, (n - 1) as nat);
        let t = i + len - (n - 1);
        lemma_small_mod(t as nat, len as nat);
        lemma_seq_sum_step(ap, len - (n - i - 1));
    }
}

proof fn lemma_diag_partial(w: WilfSet, i: int, n: nat)
    requires
        w.apery@.len() == w.g1,
        w.g1 > 0,
        w.apery@[0] == 0,
        apery_sums_ok(w.apery@, w.g1),
        is_square(w.lambda_matrix@, w.g1 as nat),
        forall|i: int, j: int| 0 <= i < w.g1 && 0 <= j < w.g1 ==> #[trigger] w.lambda_matrix@[i]@[j] == if i >= 1 && j >= 1 {
            lambda_entry(w.apery@, w.g1, i, j)
        } else {
            0
        },
        0 <= i < w.g1,
        n <= w.g1,
    ensures
        w.g1 * mat_diag_total(w.lambda_matrix@, w.g1 as nat, i, n)
            == seq_sum(w.apery@.take(n as int)) + reflected_total(w.apery@, i, n) - n * w.apery@[i],
    decreases n,
{
    let ap = w.apery@;
    let g1 = w.g1;
    let m = g1 as int;
    if n == 0 {
        assert(ap.take(0) =~= Seq::<usize>::empty());
        assert(seq_sum(ap.take(0)) == 0);
        assert(n * ap[i] == 0) by (nonlinear_arith) requires n == 0;
        assert(g1 * mat_diag_total(w.lambda_matrix@, g1 as nat, i, n) == 0) by (nonlinear_arith)
            requires mat_diag_total(w.lambda_matrix@, g1 as nat, i, n) == 0;
    } else {
        let p = (n - 1) as nat;
        lemma_diag_partial(w, i, p);
        let k = p as int;
        let j = (i + m - k) % m;
        lemma_mod_bound(i + m - k, m);
        let e = w.lambda_matrix@[k]@[j];
        lemma_lambda_entry_exact(ap, g1, k, j, e as int);
        // (k + j) % m == i
        lemma_add_mod_noop(k, i + m - k, m);
        lemma_mod_twice(k, m);
        lemma_small_mod(k as nat, m as nat);
        lemma_add_mod_noop(k, j, m);
        lemma_mod_twice(j, m);
        lemma_small_mod(j as nat, m as nat);
        lemma_fundamental_div_mod_converse(i + m, m, 1, i);
        assert((k + j) % m == i);
        lemma_seq_sum_step(ap, k);
        let t0 = mat_diag_total(w.lambda_matrix@, g1 as nat, i, p);
        let t1 = mat_diag_total(w.lambda_matrix@, g1 as nat, i, n);
        let r0 = reflected_total(ap, i, p);
        let r1 = reflected_total(ap, i, n);
        let q0 = seq_sum(ap.take(k));
        let q1 = seq_sum(ap.take(n as int));
        assert(t1 == t0 + e);
        assert(r1 == r0 + ap[j]);
        assert(g1 * t1 == q1 + r1 - n * ap[i]) by (nonlinear_arith)
            requires
                t1 == t0 + e,
                g1 * t0 == q0 + r0 - p * ap[i],
                g1 * e == ap[k] + ap[j] - ap[i],
                q1 == q0 + ap[k],
                r1 == r0 + ap[j],
                n == p + 1;
    }
}

/// The diagonal sums of the lambda matrix of a result of `generatewilf`: diagonal `i`
/// sums to twice the average of the Apéry set less `a_i`, `double_avg_a - a_i`.
pub proof fn lemma_lambda_diags(s: Seq<usize>, w: WilfSet)
    requires
        generatewilf_ok(s),
        generatewilf_post(s, w),
    ensures
        forall|i: int| 0 <= i < w.g1 ==> #[trigger] mat_diag_total(w.lambda_matrix@, w.g1 as nat, i, w.g1 as nat)
            == w.double_avg_a - w.apery@[i],
{
    let ap = w.apery@;
    let g1 = w.g1;
    lemma_result_apery(s, w);
    assert(ap.take(g1 as int) =~= ap);
    assert forall|i: int| 0 <= i < g1 implies #[trigger] mat_diag_total(w.lambda_matrix@, g1 as nat, i, g1 as nat)
        == w.double_avg_a - ap[i] by {
        lemma_diag_partial(w, i, g1 as nat);
        lemma_reflected_back(ap, i, g1 as nat);
        let d = mat_diag_total(w.lambda_matrix@, g1 as nat, i, g1 as nat);
        assert(g1 * d == 2 * seq_sum(ap) - g1 * ap[i]);
        assert(2 * seq_sum(ap) == (d + ap[i]) * g1) by (nonlinear_arith)
            requires g1 * d == 2 * seq_sum(ap) - g1 * ap[i];
        lemma_div_by_multiple((d + ap[i]) as int, g1 as int);
    }
}

/// A lambda entry of the least members modulo `s` is exact: `s` times it is
/// `ap[i] + ap[j] - ap[(i + j) % s]`.
proof fn lemma_least_lambda_exact(w: WilfSet, s: nat, ap: Seq<usize>, i: int, j: int)
    requires
        table_ok(w),
        s > 0,
        least_classes(w, s, ap),
        0 <= i < s,
        0 <= j < s,
    ensures
        s * lambda_of(ap, s, i, j) == ap[i] + ap[j] - ap[(i + j) % (s as int)],
{
    let m = s as int;
    let k = (i + j) % m;
    lemma_least_sum(w, s, ap, i, j);
    lemma_mod_bound(i + j, m);
    assert(is_least_in_class(w.set@, w.c as nat, s, i as nat, ap[i] as nat));
    assert(is_least_in_class(w.set@, w.c as nat, s, j as nat, ap[j] as nat));
    assert(is_least_in_class(w.set@, w.c as nat, s, k as nat, ap[k] as nat));
    let x = ap[i] + ap[j] - ap[k];
    assert(((ap[i] + ap[j]) as nat) % s == k) by {
        lemma_add_mod_noop(ap[i] as int, ap[j] as int, m);
    }
    assert(x % m == 0) by {
        lemma_sub_mod_noop(ap[i] + ap[j], ap[k] as int, m);
        lemma_small_mod(0, s);
    }
    lemma_fundamental_div_mod(x, m);
}

proof fn lemma_mod_row_partial(w: WilfSet, s: nat, ap: Seq<usize>, i: int, n: nat)
    requires
        table_ok(w),
        s > 0,
        least_classes(w, s, ap),
        0 <= i < s,
        n <= s,
    ensures
        s * row_total(ap, s, i, n) == n * ap[i] + seq_sum(ap.take(n as int)) - rotated_total(ap, i, n),
    decreases n,
{
    if n == 0 {
        assert(ap.take(0) =~= Seq::<usize>::empty());
        assert(n * ap[i] == 0) by (nonlinear_arith) requires n == 0;
        assert(s * row_total(ap, s, i, n) == 0) by (nonlinear_arith) requires row_total(ap, s, i, n) == 0;
    } else {
        let p = (n - 1) as nat;
        lemma_mod_row_partial(w, s, ap, i, p);
        lemma_least_lambda_exact(w, s, ap, i, p as int);
        lemma_seq_sum_step(ap, p as int);
        let e = lambda_of(ap, s, i, p as int);
        let t0 = row_total(ap, s, i, p);
        let t1 = row_total(ap, s, i, n);
        let r0 = rotated_total(ap, i, p);
        let r1 = rotated_total(ap, i, n);
        let q0 = seq_sum(ap.take(p as int));
        let q1 = seq_sum(ap.take(n as int));
        assert(t1 == t0 + e);
        assert(r1 == r0 + ap[(i + p) % (s as int)]);
        assert(s * t1 == n * ap[i] + q1 - r1) by (nonlinear_arith)
            requires
                t1 == t0 + e,
                s * t0 == p * ap[i] + q0 - r0,
                s * e == ap[i] + ap[p as int] - ap[(i + p) % (s as int)],
                q1 == q0 + ap[p as int],
                r1 == r0 + ap[(i + p) % (s as int)],
                n == p + 1;
    }
}

proof fn lemma_mod_diag_partial(w: WilfSet, s: nat, ap: Seq<usize>, d: int, n: nat)
    requires
        table_ok(w),
        s > 0,
        least_classes(w, s, ap),
        0 <= d < s,
        n <= s,
    ensures
        s * diag_total(ap, s, d, n) == seq_sum(ap.take(n as int)) + reflected_total(ap, d, n) - n * ap[d],
    decreases n,
{
    let m = s as int;
    if n == 0 {
        assert(ap.take(0) =~= Seq::<usize>::empty());
        assert(n * ap[d] == 0) by (nonlinear_arith) requires n == 0;
        assert(s * diag_total(ap, s, d, n) == 0) by (nonlinear_arith) requires diag_total(ap, s, d, n) == 0;
    } else {
        let p = (n - 1) as nat;
        lemma_mod_diag_partial(w, s, ap, d, p);
        let k = p as int;
        let j = (d + m - k) % m;
        lemma_mod_bound(d + m - k, m);
        assert((m + d - k) % m == j);
        lemma_least_lambda_exact(w, s, ap, k, j);
        lemma_add_mod_noop(k, d + m - k, m);
        lemma_mod_twice(k, m);
        lemma_small_mod(k as nat, s);
        lemma_add_mod_noop(k, j, m);
        lemma_mod_twice(j, m);
        lemma_small_mod(j as nat, s);
        lemma_fundamental_div_mod_converse(d + m, m, 1, d);
        assert((k + j) % m == d);
        lemma_seq_sum_step(ap, k);
        let e = lambda_of(ap, s, k, j);
        let t0 = diag_total(ap, s, d, p);
        let t1 = diag_total(ap, s, d, n);
        let r0 = reflected_total(ap, d, p);
        let r1 = reflected_total(ap, d, n);
        let q0 = seq_sum(ap.take(k));
        let q1 = seq_sum(ap.take(n as int));
        assert(t1 == t0 + e);
        assert(r1 == r0 + ap[j]);
        assert(s * t1 == q1 + r1 - n * ap[d]) by (nonlinear_arith)
            requires
                t1 == t0 + e,
                s * t0 == q0 + r0 - p * ap[d],
                s * e == ap[k] + ap[j] - ap[d],
                q1 == q0 + ap[k],
                r1 == r0 + ap[j],
                n == p + 1;
    }
}

/// The sums printed beside the table modulo a number `s`: row `i` of the lambda entries
/// sums to the least member `a_i` of residue `i`, and diagonal `d` to twice their average
/// less `a_d`, `2 (a_0 + ... + a_(s-1)) / s - a_d`.
pub proof fn lemma_mod_table_sums(w: WilfSet, s: nat, ap: Seq<usize>)
    requires
        table_ok(w),
        s > 0,
        least_classes(w, s, ap),
    ensures
        forall|i: int| 0 <= i < s ==> #[trigger] row_total(ap, s, i, s) == ap[i],
        forall|d: int| 0 <= d < s ==> #[trigger] diag_total(ap, s, d, s) == (2 * seq_sum(ap)) as int / (s as int) - ap[d],
{
    assert(ap.take(s as int) =~= ap);
    assert forall|i: int| 0 <= i < s implies #[trigger] row_total(ap, s, i, s) == ap[i] by {
        lemma_mod_row_partial(w, s, ap, i, s);
        lemma_rotated_full(ap, i);
        let t = row_total(ap, s, i, s);
        assert(s * t == s * ap[i]);
        lemma_mul_equality_converse(s as int, t, ap[i] as int);
    }
    assert forall|d: int| 0 <= d < s implies #[trigger] diag_total(ap, s, d, s) == (2 * seq_sum(ap)) as int / (s as int) - ap[d] by {
        lemma_mod_diag_partial(w, s, ap, d, s);
        lemma_reflected_back(ap, d, s);
        let t = diag_total(ap, s, d, s);
        assert(s * t == 2 * seq_sum(ap) - s * ap[d]);
        assert(2 * seq_sum(ap) == s * (t + ap[d])) by (nonlinear_arith)
            requires s * t == 2 * seq_sum(ap) - s * ap[d];
        lemma_div_multiples_vanish(t + ap[d], s as int);
    }
}

/// The least members of the table of a result of `generatewilf` modulo its multiplicity
/// are its Apéry set.
pub proof fn lemma_apery_field_least(inp: Seq<usize>, w: WilfSet)
    requires
        generatewilf_ok(inp),
        generatewilf_post(inp, w),
    ensures
        least_classes(w, w.g1 as nat, w.apery@),
{
    let g = reduce(inp);
    let m = seq_min(g);
    let c = w.c as nat;
    lemma_generatewilf_table(inp, w);
    lemma_reduce_positive(inp);
    lemma_seq_min(g);
    lemma_generatewilf_residues(inp);
    lemma_all_apery(g, m, seq_max(g) * seq_max(g) + m);
    assert forall|r: int| 0 <= r < m implies is_least_in_class(w.set@, c, m, r as nat, #[trigger] w.apery@[r] as nat) by {
        let a = apery(g, m, r as nat);
        assert(is_apery(g, m, r as nat, a));
        assert(w.apery@[r] == a);
        assert(table_member(w.set@, c, a));
        assert forall|y: nat| y < a && y % m == r implies !#[trigger] table_member(w.set@, c, y) by {
            assert(!in_sg(g, y));
        }
    }
}

/// The lambda matrix that `WilfSet::new` builds from an Apéry set `ap` modulo `g1` (with
/// `ap[0] == 0`): row 0 and column 0 are 0, `g1` times entry `(i, j)` is
/// `a_i + a_j - a_((i + j) % g1)`, the matrix is symmetric, row `i` sums to `a_i` and
/// diagonal `i` to `double_avg_a - a_i`.
pub proof fn lemma_new_lambda(set: Seq<u8>, ap: Seq<usize>, g1: usize, w: WilfSet)
    requires
        new_inputs_ok(set, ap, g1),
        ap[0] == 0,
        wilf_fields(w, set, ap, g1),
    ensures
        is_square(w.lambda_matrix@, g1 as nat),
        forall|i: int| 0 <= i < g1 ==> #[trigger] w.lambda_matrix@[0]@[i] == 0 && w.lambda_matrix@[i]@[0] == 0,
        forall|i: int, j: int| 0 <= i < g1 && 0 <= j < g1 ==> g1 * #[trigger] w.lambda_matrix@[i]@[j] == ap[i] + ap[j] - ap[(i + j) % (g1 as int)],
        forall|i: int, j: int| 0 <= i < g1 && 0 <= j < g1 ==> #[trigger] w.lambda_matrix@[i]@[j] == w.lambda_matrix@[j]@[i],
        forall|i: int| 0 <= i < g1 ==> #[trigger] mat_row_total(w.lambda_matrix@, i, g1 as nat) == ap[i],
        forall|i: int| 0 <= i < g1 ==> #[trigger] mat_diag_total(w.lambda_matrix@, g1 as nat, i, g1 as nat) == w.double_avg_a - ap[i],
{
    assert(ap.take(g1 as int) =~= ap);
    assert forall|i: int, j: int| 0 <= i < g1 && 0 <= j < g1 implies g1 * #[trigger] w.lambda_matrix@[i]@[j] == ap[i] + ap[j] - ap[(i + j) % (g1 as int)] by {
        lemma_lambda_entry_exact(ap, g1, i, j, w.lambda_matrix@[i]@[j] as int);
    }
    assert forall|i: int, j: int| 0 <= i < g1 && 0 <= j < g1 implies #[trigger] w.lambda_matrix@[i]@[j] == w.lambda_matrix@[j]@[i] by {
        assert(w.lambda_matrix@[j]@[i] == if j >= 1 && i >= 1 { lambda_entry(ap, g1, j, i) } else { 0 });
        assert(w.lambda_matrix@[i]@[j] == if i >= 1 && j >= 1 { lambda_entry(ap, g1, i, j) } else { 0 });
        assert(i + j == j + i);
    }
    assert forall|i: int| 0 <= i < g1 implies #[trigger] mat_row_total(w.lambda_matrix@, i, g1 as nat) == ap[i] by {
        lemma_row_partial(w, i, g1 as nat);
        lemma_rotated_full(ap, i);
        assert(g1 * mat_row_total(w.lambda_matrix@, i, g1 as nat) == g1 * ap[i]);
        lemma_mul_equality_converse(g1 as int, mat_row_total(w.lambda_matrix@, i, g1 as nat) as int, ap[i] as int);
    }
    assert forall|i: int| 0 <= i < g1 implies #[trigger] mat_diag_total(w.lambda_matrix@, g1 as nat, i, g1 as nat)
        == w.double_avg_a - ap[i] by {
        lemma_diag_partial(w, i, g1 as nat);
        lemma_reflected_back(ap, i, g1 as nat);
        let d = mat_diag_total(w.lambda_matrix@, g1 as nat, i, g1 as nat);
        assert(g1 * d == 2 * seq_sum(ap) - g1 * ap[i]);
        assert(2 * seq_sum(ap) == (d + ap[i]) * g1) by (nonlinear_arith)
            requires g1 * d == 2 * seq_sum(ap) - g1 * ap[i];
        lemma_div_by_multiple((d + ap[i]) as int, g1 as int);
    }
}

/// The contract of `generatewilf` fixes its result: two results on one input agree on the
/// table, the Apéry set, the conductor, the counts, the minimal generators and every
/// lambda entry.
pub proof fn lemma_generatewilf_determined(s: Seq<usize>, w1: WilfSet, w2: WilfSet)
    requires
        generatewilf_ok(s),
        generatewilf_post(s, w1),
        generatewilf_post(s, w2),
    ensures
        w1.set@ == w2.set@,
        w1.apery@ == w2.apery@,
        w1.g1 == w2.g1,
        w1.max_a == w2.max_a,
        w1.sum_a == w2.sum_a,
        w1.double_avg_a == w2.double_avg_a,
        w1.maxgap == w2.maxgap,
        w1.c == w2.c,
        w1.count_set == w2.count_set,
        w1.count_gap == w2.count_gap,
        w1.gen_flags@ == w2.gen_flags@,
        w1.gen_set@ == w2.gen_set@,
        w1.e == w2.e,
        w1.defect == w2.defect,
        w1.a1 == w2.a1,
        forall|i: int, j: int| 0 <= i < w1.g1 && 0 <= j < w1.g1 ==> #[trigger] w1.lambda_matrix@[i]@[j] == w2.lambda_matrix@[i]@[j],
{
    lemma_generatewilf_same_semigroup(s, s, w1, w2);
}

} // verus!
